use vstd::prelude::*;
use crate::reader::chars_of;
use vstd::string::StringExecFns;

verus! {

/// Why a namespace and path do not make a resource location.
#[derive(Debug, Clone, Copy, PartialEq, Eq, Structural)]
pub enum ResourceLocationError {
    Parse,
    InvalidNamespace,
    InvalidPath,
}

pub open spec fn namespace_char(c: char) -> bool {
    ('0' <= c && c <= '9') || ('a' <= c && c <= 'z') || c == '_' || c == '-' || c == '.'
}

pub open spec fn path_char(c: char) -> bool {
    namespace_char(c) || c == '/'
}

/// A non-empty namespace of `[0-9a-z_.-]`.
pub open spec fn valid_namespace(s: Seq<char>) -> bool {
    s.len() > 0 && forall|i: int| 0 <= i < s.len() ==> namespace_char(#[trigger] s[i])
}

/// A non-empty path of `[0-9a-z_./-]`.
pub open spec fn valid_path(s: Seq<char>) -> bool {
    s.len() > 0 && forall|i: int| 0 <= i < s.len() ==> path_char(#[trigger] s[i])
}

/// An identifier `namespace:path`.
#[derive(Debug, Clone, PartialEq)]
pub struct ResourceLocation {
    namespace: String,
    path: String,
}

fn all_chars_ok(s: &str, allow_slash: bool) -> (r: bool)
    ensures
        r == if allow_slash {
            valid_path(s@)
        } else {
            valid_namespace(s@)
        },
{
    let chars = chars_of(s);
    let mut i: usize = 0;
    while i < chars.len()
        invariant
            i <= chars@.len(),
            chars@ == s@,
            forall|j: int|
                0 <= j < i ==> if allow_slash {
                    path_char(#[trigger] s@[j])
                } else {
                    namespace_char(s@[j])
                },
        decreases chars@.len() - i,
    {
        let c = chars[i];
        let ok = (c >= '0' && c <= '9') || (c >= 'a' && c <= 'z') || c == '_' || c == '-' || c
            == '.' || (allow_slash && c == '/');
        if !ok {
            return false;
        }
        i += 1;
    }
    chars.len() > 0
}

impl ResourceLocation {
    pub closed spec fn spec_namespace(&self) -> Seq<char> {
        self.namespace@
    }

    pub closed spec fn spec_path(&self) -> Seq<char> {
        self.path@
    }

    /// A location from its two parts; an empty namespace means `minecraft`.
    pub fn new(namespace: &str, path: &str) -> (r: Result<ResourceLocation, ResourceLocationError>)
        ensures
            ({
                let ns = if namespace@.len() == 0 {
                    "minecraft"@
                } else {
                    namespace@
                };
                if !valid_namespace(ns) {
                    r == Err::<ResourceLocation, ResourceLocationError>(
                        ResourceLocationError::InvalidNamespace,
                    )
                } else if !valid_path(path@) {
                    r == Err::<ResourceLocation, ResourceLocationError>(
                        ResourceLocationError::InvalidPath,
                    )
                } else {
                    r matches Ok(l) && l.spec_namespace() == ns && l.spec_path() == path@
                }
            }),
    {
        let ns = if namespace.unicode_len() == 0 {
            String::from_str("minecraft")
        } else {
            String::from_str(namespace)
        };
        if !all_chars_ok(ns.as_str(), false) {
            Err(ResourceLocationError::InvalidNamespace)
        } else if !all_chars_ok(path, true) {
            Err(ResourceLocationError::InvalidPath)
        } else {
            Ok(ResourceLocation { namespace: ns, path: String::from_str(path) })
        }
    }

    /// `namespace:path`.
    pub fn to_text(&self) -> (r: String)
        ensures
            r@ == self.spec_namespace() + seq![':'] + self.spec_path(),
    {
        let mut r = String::from_str(self.namespace.as_str());
        crate::reader::push_char(&mut r, ':');
        r.append(self.path.as_str());
        r
    }

    pub fn namespace(&self) -> (r: &str)
        ensures
            r@ == self.spec_namespace(),
    {
        self.namespace.as_str()
    }

    pub fn path(&self) -> (r: &str)
        ensures
            r@ == self.spec_path(),
    {
        self.path.as_str()
    }
}

} // verus!
