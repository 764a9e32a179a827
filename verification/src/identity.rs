//! Identity rules: which fields identify a record.

use vstd::prelude::*;

use crate::error::{CoreError, CoreResult};
use crate::text::{
    copy_string, is_ws, split_on, split_str, starts_with, str_starts_with, str_views, string_views,
    trim, trim_end, trim_start, trim_str,
};

verus! {

/// A parsed identity rule: one field, or an ordered composite of fields.
#[derive(Debug, Clone, PartialEq, Eq)]
pub enum IdentityRule {
    Field(String),
    Composite(Vec<String>),
}

impl View for IdentityRule {
    /// Whether the rule is composite, and its field names in order.
    type V = (bool, Seq<Seq<char>>);

    open spec fn view(&self) -> (bool, Seq<Seq<char>>) {
        match self {
            IdentityRule::Field(n) => (false, seq![n@]),
            IdentityRule::Composite(v) => (true, string_views(v@)),
        }
    }
}

/// Each piece trimmed of white space.
pub open spec fn trim_all(s: Seq<Seq<char>>) -> Seq<Seq<char>> {
    s.map_values(|p: Seq<char>| trim(p))
}

/// Some name is empty.
pub open spec fn has_empty(s: Seq<Seq<char>>) -> bool {
    exists|i: int| 0 <= i < s.len() && #[trigger] s[i].len() == 0
}

/// What a rule parses to: `composite:[a,b,...]` with the names trimmed and
/// none empty, or `field:name` with a non-empty name.
pub open spec fn parse_identity_rule(r: Seq<char>) -> Option<(bool, Seq<Seq<char>>)> {
    if starts_with(r, "composite:["@) {
        let inner = r.skip("composite:["@.len() as int);
        if !(inner.len() > 0 && inner.last() == ']') {
            None
        } else {
            let fields = trim_all(split_on(inner.drop_last(), ','));
            if fields.len() == 0 || has_empty(fields) {
                None
            } else {
                Some((true, fields))
            }
        }
    } else if starts_with(r, "field:"@) {
        let name = r.skip("field:"@.len() as int);
        if name.len() == 0 {
            None
        } else {
            Some((false, seq![name]))
        }
    } else {
        None
    }
}

/// The contract of parsing an identity rule.
pub open spec fn identity_fields_ok(rule: Seq<char>, r: CoreResult<IdentityRule>) -> bool {
    match parse_identity_rule(rule) {
        Some(v) => r matches Ok(x) && x@ == v,
        None => r matches Err(CoreError::InvalidIdentityRule(t)) && t@ == rule,
    }
}

/// Parses an identity rule.
pub fn identity_fields(rule: &str) -> (r: CoreResult<IdentityRule>)
    ensures
        identity_fields_ok(rule@, r),
{
    let n = rule.unicode_len();
    if str_starts_with(rule, "composite:[") {
        proof {
            reveal_strlit("composite:[");
        }
        let inner = rule.substring_char(11, n);
        assert(inner@ =~= rule@.skip("composite:["@.len() as int));
        let m = inner.unicode_len();
        if !(m > 0 && inner.get_char(m - 1) == ']') {
            return Err(CoreError::InvalidIdentityRule(copy_string(rule)));
        }
        let body = inner.substring_char(0, m - 1);
        assert(body@ =~= inner@.drop_last());
        let pieces = split_str(body, ',');
        let ghost want = trim_all(split_on(body@, ','));
        let mut fields: Vec<String> = Vec::new();
        let mut any_empty = false;
        let mut i: usize = 0;
        while i < pieces.len()
            invariant
                0 <= i <= pieces@.len(),
                str_views(pieces@) == split_on(body@, ','),
                want == trim_all(split_on(body@, ',')),
                string_views(fields@) == want.take(i as int),
                any_empty == has_empty(want.take(i as int)),
            decreases pieces@.len() - i,
        {
            let t = trim_str(pieces[i]);
            assert(t@ == want[i as int]);
            let ghost old_fields = fields@;
            fields.push(copy_string(t));
            assert(string_views(fields@) =~= string_views(old_fields).push(t@));
            assert(want.take(i + 1) =~= want.take(i as int).push(t@));
            if t.unicode_len() == 0 {
                any_empty = true;
                assert(want.take(i + 1)[i as int].len() == 0);
            } else {
                assert(has_empty(want.take(i + 1)) == has_empty(want.take(i as int))) by {
                    if has_empty(want.take(i + 1)) {
                        let k = choose|k: int|
                            0 <= k < want.take(i + 1).len() && #[trigger] want.take(i + 1)[k].len()
                                == 0;
                        assert(want.take(i as int)[k] == want.take(i + 1)[k]);
                    }
                    if has_empty(want.take(i as int)) {
                        let k = choose|k: int|
                            0 <= k < want.take(i as int).len() && #[trigger] want.take(
                                i as int,
                            )[k].len() == 0;
                        assert(want.take(i + 1)[k] == want.take(i as int)[k]);
                    }
                }
            }
            i = i + 1;
        }
        assert(want.take(want.len() as int) =~= want);
        if fields.len() == 0 || any_empty {
            Err(CoreError::InvalidIdentityRule(copy_string(rule)))
        } else {
            Ok(IdentityRule::Composite(fields))
        }
    } else if str_starts_with(rule, "field:") {
        proof {
            reveal_strlit("field:");
        }
        let name = rule.substring_char(6, n);
        assert(name@ =~= rule@.skip("field:"@.len() as int));
        if name.unicode_len() == 0 {
            Err(CoreError::InvalidIdentityRule(copy_string(rule)))
        } else {
            Ok(IdentityRule::Field(copy_string(name)))
        }
    } else {
        Err(CoreError::InvalidIdentityRule(copy_string(rule)))
    }
}

/// `std::slice::from_ref`: a one-element slice holding the referenced value.
#[verifier::external_body]
fn one_element_slice(x: &String) -> (r: &[String])
    ensures
        r@ == seq![*x],
{
    std::slice::from_ref(x)
}

/// The field names of a rule, in order.
pub fn identity_field_names(rule: &IdentityRule) -> (r: &[String])
    ensures
        string_views(r@) == rule@.1,
{
    match rule {
        IdentityRule::Field(n) => {
            let r = one_element_slice(n);
            assert(string_views(r@) =~= seq![n@]);
            r
        },
        IdentityRule::Composite(v) => v.as_slice(),
    }
}

/// Names joined by commas.
pub open spec fn join_comma(names: Seq<Seq<char>>) -> Seq<char>
    decreases names.len(),
{
    if names.len() == 0 {
        Seq::empty()
    } else if names.len() == 1 {
        names[0]
    } else {
        join_comma(names.drop_last()) + seq![','] + names.last()
    }
}

/// A field name that a composite rule can list as it is: not empty, no
/// comma in it, and no white space at either end.
pub open spec fn plain_name(n: Seq<char>) -> bool {
    &&& n.len() > 0
    &&& !n.contains(',')
    &&& !is_ws(n[0])
    &&& !is_ws(n.last())
}

proof fn lemma_split_extend(s: Seq<char>, t: Seq<char>, sep: char)
    requires
        !t.contains(sep),
    ensures
        split_on(s + t, sep) == split_on(s, sep).update(
            split_on(s, sep).len() - 1,
            split_on(s, sep).last() + t,
        ),
    decreases t.len(),
{
    lemma_split_nonempty_len(s, sep);
    if t.len() == 0 {
        assert(s + t =~= s);
        assert(split_on(s, sep).last() + t =~= split_on(s, sep).last());
        assert(split_on(s, sep).update(split_on(s, sep).len() - 1, split_on(s, sep).last())
            =~= split_on(s, sep));
    } else {
        let t1 = t.drop_last();
        assert(!t1.contains(sep)) by {
            if t1.contains(sep) {
                let i = choose|i: int| 0 <= i < t1.len() && t1[i] == sep;
                assert(t[i] == sep);
            }
        }
        lemma_split_extend(s, t1, sep);
        assert((s + t).drop_last() =~= s + t1);
        assert((s + t).last() == t.last());
        assert(t.last() != sep) by {
            assert(t[t.len() - 1] == t.last());
        }
        lemma_split_nonempty_len(s + t1, sep);
        assert(split_on(s, sep).last() + t =~= (split_on(s, sep).last() + t1).push(t.last()));
    }
}

proof fn lemma_split_nonempty_len(s: Seq<char>, sep: char)
    ensures
        split_on(s, sep).len() > 0,
    decreases s.len(),
{
    if s.len() > 0 {
        lemma_split_nonempty_len(s.drop_last(), sep);
    }
}

proof fn lemma_split_join(names: Seq<Seq<char>>)
    requires
        names.len() > 0,
        forall|i: int| 0 <= i < names.len() ==> !(#[trigger] names[i]).contains(','),
    ensures
        split_on(join_comma(names), ',') == names,
    decreases names.len(),
{
    if names.len() == 1 {
        lemma_split_extend(Seq::empty(), names[0], ',');
        assert(Seq::<char>::empty() + names[0] =~= names[0]);
        assert(split_on(Seq::<char>::empty(), ',') =~= seq![Seq::<char>::empty()]);
        assert(Seq::<char>::empty() + names[0] =~= names[0]);
        assert(seq![Seq::<char>::empty()].update(0, Seq::<char>::empty() + names[0]) =~= names);
    } else {
        let d = names.drop_last();
        lemma_split_join(d);
        let j = join_comma(d) + seq![','];
        assert(j.drop_last() =~= join_comma(d));
        assert(split_on(j, ',') == split_on(join_comma(d), ',').push(seq![]));
        assert(!names.last().contains(',')) by {
            assert(names[names.len() - 1] == names.last());
        }
        lemma_split_extend(j, names.last(), ',');
        assert(Seq::<char>::empty() + names.last() =~= names.last());
        assert(d.push(seq![]).update(d.len() as int, Seq::<char>::empty() + names.last()) =~= names);
    }
}

proof fn lemma_trim_plain(n: Seq<char>)
    requires
        plain_name(n),
    ensures
        trim(n) == n,
{
    assert(trim_start(n) == n);
    assert(trim_end(n) == n);
}

/// A composite rule keeps every listed field: for names that can be listed
/// as they are, `composite:[n1,...,nk]` parses to exactly those names, in
/// order, so the rule has as many fields as the list has pieces.
pub proof fn law_composite_rule_keeps_every_field(names: Seq<Seq<char>>)
    requires
        names.len() > 0,
        forall|i: int| 0 <= i < names.len() ==> plain_name(#[trigger] names[i]),
    ensures
        parse_identity_rule("composite:["@ + join_comma(names) + "]"@) == Some((true, names)),
{
    reveal_strlit("composite:[");
    reveal_strlit("]");
    reveal_strlit("field:");
    let r = "composite:["@ + join_comma(names) + "]"@;
    assert(r.take(11) =~= "composite:["@);
    let inner = r.skip(11);
    assert(inner =~= join_comma(names) + seq![']']);
    assert(inner.drop_last() =~= join_comma(names));
    lemma_split_join(names);
    assert forall|i: int| 0 <= i < names.len() implies trim(#[trigger] names[i]) == names[i] by {
        lemma_trim_plain(names[i]);
    }
    assert(trim_all(names) =~= names);
    assert(!has_empty(names)) by {
        if has_empty(names) {
            let i = choose|i: int| 0 <= i < names.len() && #[trigger] names[i].len() == 0;
            assert(plain_name(names[i]));
        }
    }
}

} // verus!
