//! Where signing keys and proofs live in the cloud.

use vstd::prelude::*;

use crate::text::copy_string;

verus! {

/// The key management service that signs proofs.
#[derive(Debug, Clone, PartialEq, Eq, Structural)]
pub enum KmsProviderConfig {
    File,
    Aws,
    Gcp,
    Azure,
}

impl Default for KmsProviderConfig {
    fn default() -> (r: Self)
        ensures
            r == KmsProviderConfig::File,
    {
        KmsProviderConfig::File
    }
}

/// The backend that stores proofs.
#[derive(Debug, Clone, PartialEq, Eq)]
pub enum CloudStoreConfig {
    Local { path: String },
    S3 { bucket: String, prefix: String, region: Option<String> },
    Gcs { bucket: String, prefix: String },
    Adls { account: String, container: String, prefix: String },
}

impl Default for CloudStoreConfig {
    fn default() -> (r: Self)
        ensures
            r matches CloudStoreConfig::Local { path } && path@ == ".veridata/proofs"@,
    {
        CloudStoreConfig::Local { path: copy_string(".veridata/proofs") }
    }
}

/// The producer string with the signing service and key appended, when the
/// signer has a key id: `<base> kms=<provider>/<key id>`.
pub open spec fn spec_producer_with_kms(
    base: Seq<char>,
    kms_provider: Seq<char>,
    key_id: Option<Seq<char>>,
) -> Seq<char> {
    match key_id {
        Some(kid) => base + " kms="@ + kms_provider + "/"@ + kid,
        None => base,
    }
}

/// Appends audit-friendly signing metadata to a producer string, from the
/// signer's service name and key id.
pub fn producer_with_kms(base: &str, kms_provider: &str, key_id: Option<&str>) -> (r: String)
    ensures
        r@ == spec_producer_with_kms(
            base@,
            kms_provider@,
            match key_id {
                Some(k) => Some(k@),
                None => None,
            },
        ),
{
    let mut out = copy_string(base);
    if let Some(kid) = key_id {
        out.append(" kms=");
        out.append(kms_provider);
        out.append("/");
        out.append(kid);
    }
    out
}

/// The key id a signer of the provider is built with: a file signer takes
/// the key id when there is one (else it reads the private key file); a cloud
/// service needs one, and without it the reason is the error.
pub open spec fn spec_signer_key_id(
    provider: KmsProviderConfig,
    key_id: Option<Seq<char>>,
) -> Result<Option<Seq<char>>, Seq<char>> {
    match (provider, key_id) {
        (KmsProviderConfig::File, k) => Ok(k),
        (_, Some(k)) => Ok(Some(k)),
        (KmsProviderConfig::Aws, None) => Err("aws kms requires crypto.kms_key_id (key ARN)"@),
        (KmsProviderConfig::Gcp, None) => Err(
            "gcp kms requires crypto.kms_key_id (resource name)"@,
        ),
        (KmsProviderConfig::Azure, None) => Err(
            "azure key vault requires crypto.kms_key_id (key name)"@,
        ),
    }
}

/// Checks the key id that a signer of the provider needs.
pub fn signer_key_id(provider: &KmsProviderConfig, key_id: Option<&str>) -> (r: Result<
    Option<String>,
    String,
>)
    ensures
        spec_signer_key_id(
            *provider,
            match key_id {
                Some(k) => Some(k@),
                None => None,
            },
        ) == (match r {
            Ok(Some(k)) => Ok::<Option<Seq<char>>, Seq<char>>(Some(k@)),
            Ok(None) => Ok::<Option<Seq<char>>, Seq<char>>(None),
            Err(m) => Err::<Option<Seq<char>>, Seq<char>>(m@),
        }),
{
    match (provider, key_id) {
        (KmsProviderConfig::File, None) => Ok(None),
        (_, Some(k)) => Ok(Some(copy_string(k))),
        (KmsProviderConfig::Aws, None) => Err(copy_string("aws kms requires crypto.kms_key_id (key ARN)")),
        (KmsProviderConfig::Gcp, None) => Err(
            copy_string("gcp kms requires crypto.kms_key_id (resource name)"),
        ),
        (KmsProviderConfig::Azure, None) => Err(
            copy_string("azure key vault requires crypto.kms_key_id (key name)"),
        ),
    }
}

} // verus!
