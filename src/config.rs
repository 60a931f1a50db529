use vstd::prelude::*;

verus! {

/// A field of the configuration file that may not be left blank was blank.
#[derive(Clone, Copy, Debug, PartialEq, Eq, Structural)]
pub enum ConfigError {
    GroupCodeEmpty,
    NodeIpv4Empty,
}

/// What `str::trim` leaves of a string: it without leading and trailing
/// whitespace.
pub uninterp spec fn trim_of(s: Seq<char>) -> Seq<char>;

/// Relies on str::trim: the result depends on the characters alone, and an
/// empty string stays empty.
#[verifier::external_body]
fn trim(s: &str) -> (r: &str)
    ensures
        r@ == trim_of(s@),
        s@.len() == 0 ==> r@.len() == 0,
{
    s.trim()
}

/// The required-fields rule on trimmed values: the group code first, then the
/// node's IPv4 address, may not be empty.
pub fn check_trimmed(group_code: &str, node_ipv4: &str) -> (r: Result<(), ConfigError>)
    ensures
        r == (if group_code@.len() == 0 {
            Err(ConfigError::GroupCodeEmpty)
        } else if node_ipv4@.len() == 0 {
            Err(ConfigError::NodeIpv4Empty)
        } else {
            Ok(())
        }),
{
    if group_code.unicode_len() == 0 {
        Err(ConfigError::GroupCodeEmpty)
    } else if node_ipv4.unicode_len() == 0 {
        Err(ConfigError::NodeIpv4Empty)
    } else {
        Ok(())
    }
}

/// Checks the fields that a configuration may not leave blank: the group code
/// and the node's IPv4 address must each hold more than whitespace.
pub fn check(group_code: &str, node_ipv4: &str) -> (r: Result<(), ConfigError>)
    ensures
        r == (if trim_of(group_code@).len() == 0 {
            Err(ConfigError::GroupCodeEmpty)
        } else if trim_of(node_ipv4@).len() == 0 {
            Err(ConfigError::NodeIpv4Empty)
        } else {
            Ok(())
        }),
{
    check_trimmed(trim(group_code), trim(node_ipv4))
}

} // verus!
