//! Property metadata and its validation rules.

use vstd::prelude::*;

verus! {

/// Descriptive and economic data of the tokenized property.
#[derive(Clone, Debug, PartialEq, Eq)]
pub struct PropertyMeta {
    pub property_id: String,
    pub legal_name: String,
    pub jurisdiction: String,
    pub address: String,
    /// Valuation in USD base units (seven decimals).
    pub total_valuation_usd: i128,
    /// Number of shares the property is divided into.
    pub total_shares: i128,
    /// One of `residential`, `commercial`, `land`.
    pub property_type: String,
    pub ipfs_title_hash: String,
    /// Minimum KYC tier a recipient of shares must hold.
    pub kyc_tier_required: u32,
}

/// Why a piece of metadata was refused.
#[derive(Clone, Copy, Debug, PartialEq, Eq, Structural)]
pub enum MetaError {
    InvalidPropertyType,
    InvalidLegalName,
    InvalidTotalShares,
}

/// The accepted property types.
pub open spec fn is_valid_property_type(s: Seq<char>) -> bool {
    s == "residential"@ || s == "commercial"@ || s == "land"@
}

/// Whitespace characters (ASCII space, tab, line feed, vertical tab, form feed,
/// carriage return).
pub open spec fn is_whitespace(c: char) -> bool {
    c == ' ' || c == '\t' || c == '\n' || c == '\x0B' || c == '\x0C' || c == '\r'
}

/// A name is blank when it has no character other than whitespace (the empty
/// name is blank).
pub open spec fn is_blank(s: Seq<char>) -> bool {
    forall|i: int| 0 <= i < s.len() ==> is_whitespace(#[trigger] s[i])
}

/// The outcome of validating metadata: the first rule that fails, in the order
/// property type, legal name, share count.
pub open spec fn meta_check(m: PropertyMeta) -> Result<(), MetaError> {
    if !is_valid_property_type(m.property_type@) {
        Err(MetaError::InvalidPropertyType)
    } else if is_blank(m.legal_name@) {
        Err(MetaError::InvalidLegalName)
    } else if m.total_shares <= 0 {
        Err(MetaError::InvalidTotalShares)
    } else {
        Ok(())
    }
}

/// Character-wise equality of two strings.
pub fn str_equal(a: &str, b: &str) -> (r: bool)
    ensures
        r == (a@ == b@),
{
    let n = a.unicode_len();
    let m = b.unicode_len();
    if n != m {
        return false;
    }
    let mut i: usize = 0;
    while i < n
        invariant
            n == a@.len(),
            m == b@.len(),
            n == m,
            0 <= i <= n,
            forall|j: int| 0 <= j < i ==> a@[j] == b@[j],
        decreases n - i,
    {
        if a.get_char(i) != b.get_char(i) {
            return false;
        }
        i = i + 1;
    }
    assert(a@ =~= b@);
    true
}

fn char_is_whitespace(c: char) -> (r: bool)
    ensures
        r == is_whitespace(c),
{
    c == ' ' || c == '\t' || c == '\n' || c == '\x0B' || c == '\x0C' || c == '\r'
}

/// Whether `s` is one of the accepted property types.
pub fn validate_property_type(s: &str) -> (r: bool)
    ensures
        r == is_valid_property_type(s@),
{
    str_equal(s, "residential") || str_equal(s, "commercial") || str_equal(s, "land")
}

/// Whether `s` consists of whitespace only.
pub fn check_blank(s: &str) -> (r: bool)
    ensures
        r == is_blank(s@),
{
    let n = s.unicode_len();
    let mut i: usize = 0;
    while i < n
        invariant
            n == s@.len(),
            0 <= i <= n,
            forall|j: int| 0 <= j < i ==> is_whitespace(#[trigger] s@[j]),
        decreases n - i,
    {
        if !char_is_whitespace(s.get_char(i)) {
            return false;
        }
        i = i + 1;
    }
    true
}

/// Validates property metadata.
pub fn validate_meta(m: &PropertyMeta) -> (r: Result<(), MetaError>)
    ensures
        r == meta_check(*m),
{
    if !validate_property_type(m.property_type.as_str()) {
        Err(MetaError::InvalidPropertyType)
    } else if check_blank(m.legal_name.as_str()) {
        Err(MetaError::InvalidLegalName)
    } else if m.total_shares <= 0 {
        Err(MetaError::InvalidTotalShares)
    } else {
        Ok(())
    }
}

/// A field-by-field copy of the metadata.
pub fn copy_meta(m: &PropertyMeta) -> (r: PropertyMeta)
    ensures
        r == *m,
{
    PropertyMeta {
        property_id: m.property_id.clone(),
        legal_name: m.legal_name.clone(),
        jurisdiction: m.jurisdiction.clone(),
        address: m.address.clone(),
        total_valuation_usd: m.total_valuation_usd,
        total_shares: m.total_shares,
        property_type: m.property_type.clone(),
        ipfs_title_hash: m.ipfs_title_hash.clone(),
        kyc_tier_required: m.kyc_tier_required,
    }
}

} // verus!
