use crate::error::{debug_str, str_debug_text};
use crate::params::{Params, Text};
use vstd::prelude::*;
use vstd::string::*;

verus! {

/// `std::fmt::Formatter`, which `Debug::fmt` writes to. Nothing is known
/// of what it holds.
#[verifier::external_type_specification]
#[verifier::external_body]
pub struct ExFormatter<'a>(std::fmt::Formatter<'a>);

/// `std::fmt::Error`, which `Debug::fmt` may return. Nothing is known of
/// what it holds.
#[verifier::external_type_specification]
#[verifier::external_body]
pub struct ExFmtError(std::fmt::Error);

/// What a parsed configuration string holds: the service name and the
/// mapping from keys to values.
pub struct ConfStrView {
    pub service: Text,
    pub params: Map<Text, Text>,
}

/// Parsed configuration string.
///
/// The service name and the keys keep the case in which they were
/// written.
pub struct ConfStr {
    service: String,
    params: Params,
}

impl View for ConfStr {
    type V = ConfStrView;

    closed spec fn view(&self) -> ConfStrView {
        ConfStrView { service: self.service@, params: self.params@ }
    }
}

/// `Formatter::write_str` puts the given text into the formatter's
/// output, or fails where the output does. Nothing is claimed of its
/// result.
pub assume_specification<'a>[ std::fmt::Formatter::<'a>::write_str ](
    f: &mut std::fmt::Formatter<'a>,
    data: &str,
) -> std::fmt::Result
;

impl std::fmt::Debug for ConfStr {
    /// Writes what `to_debug_string` gives: the service name, and nothing
    /// of the parameters.
    fn fmt(&self, f: &mut std::fmt::Formatter<'_>) -> std::fmt::Result {
        let text = self.to_debug_string();
        f.write_str(text.as_str())
    }
}

impl ConfStr {
    /// Create a new configuration string object.
    pub fn new(service: String, params: Params) -> (c: Self)
        ensures
            c@ == (ConfStrView { service: service@, params: params@ }),
            c.params_model() == params,
    {
        ConfStr { service, params }
    }

    /// The parameters, as `params` hands them out.
    pub closed spec fn params_model(&self) -> Params {
        self.params
    }

    /// Access the service name.
    pub fn service(&self) -> (s: &str)
        ensures
            s@ == self@.service,
    {
        self.service.as_str()
    }

    /// Access the parameters.
    pub fn params(&self) -> (p: &Params)
        ensures
            p@ == self@.params,
            *p == self.params_model(),
    {
        &self.params
    }

    /// Get a parameter. The key is compared as it is written: no case is
    /// folded, nothing is trimmed.
    pub fn get(&self, key: &str) -> (r: Option<&str>)
        ensures
            match r {
                Some(v) => self@.params.contains_key(key@) && v@ == self@.params[key@],
                None => !self@.params.contains_key(key@),
            },
    {
        self.params.get(key)
    }

    /// The text that stands for a configuration in debug output, around
    /// the quoted service name. The parameters are left out, in case
    /// they hold something sensitive.
    pub fn debug_with(quoted_service: &str) -> (r: String)
        ensures
            r@ == "ConfStr { service: "@ + quoted_service@ + ", .. }"@,
    {
        let mut m = String::from_str("ConfStr { service: ");
        m.append(quoted_service);
        m.append(", .. }");
        m
    }

    /// The text that stands for this configuration in debug output. It
    /// depends on the service name alone: the parameters are left out, in
    /// case they hold something sensitive.
    pub fn to_debug_string(&self) -> (r: String)
        ensures
            r@ == "ConfStr { service: "@ + str_debug_text(self@.service) + ", .. }"@,
    {
        let q = debug_str(self.service.as_str());
        Self::debug_with(q.as_str())
    }
}

} // verus!
