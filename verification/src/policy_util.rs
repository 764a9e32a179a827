//! Policy helpers shared by the engine and the connectors.

use vstd::prelude::*;

use crate::text::{
    copy_string, parse_u64, parse_u64_str, starts_with, str_eq, string_views, trim, trim_str,
};

verus! {

/// The fields of `s` that `ex` does not list, in order.
pub open spec fn keep_not_in(s: Seq<Seq<char>>, ex: Seq<Seq<char>>) -> Seq<Seq<char>>
    decreases s.len(),
{
    if s.len() == 0 {
        seq![]
    } else {
        let r = keep_not_in(s.drop_last(), ex);
        if ex.contains(s.last()) {
            r
        } else {
            r.push(s.last())
        }
    }
}

fn contains_string(v: &[String], x: &String) -> (r: bool)
    ensures
        r == string_views(v@).contains(x@),
{
    let mut i: usize = 0;
    while i < v.len()
        invariant
            0 <= i <= v@.len(),
            forall|j: int| 0 <= j < i ==> v@[j]@ != x@,
        decreases v@.len() - i,
    {
        if str_eq(v[i].as_str(), x.as_str()) {
            assert(string_views(v@)[i as int] == x@);
            return true;
        }
        i = i + 1;
    }
    assert forall|j: int| 0 <= j < string_views(v@).len() implies string_views(v@)[j] != x@ by {
        assert(string_views(v@)[j] == v@[j]@);
    }
    false
}

/// Content fields after removing the excluded ones.
pub fn effective_content_fields(content_fields: &[String], exclude_fields: &[String]) -> (r: Vec<
    String,
>)
    ensures
        string_views(r@) == keep_not_in(string_views(content_fields@), string_views(exclude_fields@)),
{
    let ghost ex = string_views(exclude_fields@);
    let mut out: Vec<String> = Vec::new();
    let mut i: usize = 0;
    while i < content_fields.len()
        invariant
            0 <= i <= content_fields@.len(),
            ex == string_views(exclude_fields@),
            string_views(out@) == keep_not_in(string_views(content_fields@.take(i as int)), ex),
        decreases content_fields@.len() - i,
    {
        let ghost t = string_views(content_fields@.take(i + 1));
        assert(t.drop_last() =~= string_views(content_fields@.take(i as int)));
        assert(t.last() == content_fields@[i as int]@);
        if !contains_string(exclude_fields, &content_fields[i]) {
            let ghost old_out = out@;
            out.push(copy_string(content_fields[i].as_str()));
            assert(string_views(out@) =~= string_views(old_out).push(content_fields@[i as int]@));
        }
        i = i + 1;
    }
    assert(content_fields@.take(content_fields@.len() as int) =~= content_fields@);
    out
}

/// The text of a `PT<m>M` window, when the trimmed window has that form.
pub open spec fn pt_minutes(w: Seq<char>) -> Option<Seq<char>> {
    if starts_with(w, seq!['P', 'T']) && w.len() >= 3 && w.last() == 'M' {
        Some(w.subrange(2, w.len() - 1))
    } else {
        None
    }
}

/// What the late-arrival window parses to: `<n>s`, plain seconds, or
/// `PT<m>M` minutes, after trimming white space.
pub open spec fn spec_late_arrival_window(window: Seq<char>) -> Option<u64> {
    let w = trim(window);
    if w.len() > 0 && w.last() == 's' {
        parse_u64(w.drop_last())
    } else if parse_u64(w) is Some {
        parse_u64(w)
    } else {
        match pt_minutes(w) {
            Some(m) => match parse_u64(m) {
                Some(x) => Some((x * 60) as u64),
                None => None,
            },
            None => None,
        }
    }
}

/// The minutes of a `PT<m>M` window overflow a `u64` count of seconds.
pub open spec fn late_arrival_overflows(window: Seq<char>) -> bool {
    let w = trim(window);
    &&& !(w.len() > 0 && w.last() == 's')
    &&& parse_u64(w) is None
    &&& pt_minutes(w) matches Some(m) && parse_u64(m) matches Some(x) && x > u64::MAX / 60
}

/// Parses the late-arrival window (`900s`, `PT15M`, plain seconds) to seconds.
pub fn late_arrival_window_secs(window: &str) -> (r: Option<u64>)
    requires
        !late_arrival_overflows(window@),
    ensures
        r == spec_late_arrival_window(window@),
{
    let w = trim_str(window);
    let n = w.unicode_len();
    if n > 0 && w.get_char(n - 1) == 's' {
        let s = w.substring_char(0, n - 1);
        assert(s@ =~= w@.drop_last());
        return parse_u64_str(s);
    }
    match parse_u64_str(w) {
        Some(v) => {
            return Some(v);
        },
        None => {},
    }
    if n >= 3 && w.get_char(0) == 'P' && w.get_char(1) == 'T' && w.get_char(n - 1) == 'M' {
        assert(w@.take(2) =~= seq!['P', 'T']);
        let m = w.substring_char(2, n - 1);
        match parse_u64_str(m) {
            Some(x) => Some(x * 60),
            None => None,
        }
    } else {
        assert(pt_minutes(w@) is None) by {
            if starts_with(w@, seq!['P', 'T']) && w@.len() >= 3 {
                assert(w@[0] == w@.take(2)[0]);
                assert(w@[1] == w@.take(2)[1]);
            }
        }
        None
    }
}

} // verus!
