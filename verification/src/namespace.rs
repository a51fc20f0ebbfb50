//! Namespace resolver: prefixes logical key names with an optional
//! configured namespace.

use vstd::prelude::*;

verus! {

/// What wrapping a key yields: the key unchanged when no namespace is
/// configured, else the prefix, a colon, and the key.
pub open spec fn wrapped(ns: Option<Seq<char>>, key: Seq<char>) -> Seq<char> {
    match ns {
        Some(prefix) => prefix + seq![':'] + key,
        None => key,
    }
}

/// An optional key prefix for every key read from the store.
pub struct Namespace {
    pub default: Option<String>,
}

impl View for Namespace {
    type V = Option<Seq<char>>;

    open spec fn view(&self) -> Option<Seq<char>> {
        self.default.deep_view()
    }
}

impl Namespace {
    pub fn new(default: Option<String>) -> (ns: Namespace)
        ensures
            ns@ == default.deep_view(),
    {
        Namespace { default }
    }

    /// Wrap a key in the configured namespace: `key` unchanged when the
    /// namespace is unset, else `"{prefix}:{key}"`.
    pub fn wrap(&self, key: &str) -> (r: String)
        ensures
            r@ == wrapped(self@, key@),
    {
        match &self.default {
            Some(prefix) => {
                let mut out = prefix.clone();
                out.append(":");
                out.append(key);
                proof {
                    reveal_strlit(":");
                    assert(out@ =~= prefix@ + seq![':'] + key@);
                }
                out
            },
            None => key.to_owned(),
        }
    }
}

} // verus!
