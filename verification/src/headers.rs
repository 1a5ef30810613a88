//! Header names, header values, and an ordered multi-map of response headers.
//!
//! Header names follow the HTTP token grammar and are normalized to lower
//! case; header values are restricted to visible ASCII plus space and
//! horizontal tab. The response header map is an ordered multi-map: a
//! sequence of (name, value) pairs in insertion order, where one name may
//! occur any number of times.

use vstd::prelude::*;

verus! {

/// A byte allowed in a header name: the HTTP token characters
/// `! # $ % & ' * + - . ^ _ ` | ~`, digits and letters.
pub open spec fn is_token_byte(b: u8) -> bool {
    ||| b == 0x21
    ||| (0x23 <= b && b <= 0x27)
    ||| b == 0x2a
    ||| b == 0x2b
    ||| b == 0x2d
    ||| b == 0x2e
    ||| (0x30 <= b && b <= 0x39)
    ||| (0x41 <= b && b <= 0x5a)
    ||| b == 0x5e
    ||| b == 0x5f
    ||| b == 0x60
    ||| (0x61 <= b && b <= 0x7a)
    ||| b == 0x7c
    ||| b == 0x7e
}

/// ASCII upper-case letters map to lower case; every other byte is unchanged.
pub open spec fn to_lower_byte(b: u8) -> u8 {
    if 0x41 <= b && b <= 0x5a {
        (b + 0x20) as u8
    } else {
        b
    }
}

/// A byte sequence lowered byte by byte.
pub open spec fn lower(s: Seq<u8>) -> Seq<u8> {
    s.map_values(|b: u8| to_lower_byte(b))
}

/// A valid header name: a non-empty sequence of token bytes.
pub open spec fn is_valid_name(s: Seq<u8>) -> bool {
    s.len() > 0 && forall|i: int| 0 <= i < s.len() ==> is_token_byte(s[i])
}

/// No ASCII upper-case letter occurs in the sequence.
pub open spec fn is_lower(s: Seq<u8>) -> bool {
    forall|i: int| 0 <= i < s.len() ==> !(0x41 <= s[i] && s[i] <= 0x5a)
}

/// A byte allowed in a header value: visible ASCII, space or horizontal tab.
pub open spec fn is_value_byte(b: u8) -> bool {
    b == 0x09 || (0x20 <= b && b <= 0x7e)
}

/// A valid header value: every byte is a value byte (the empty value is
/// valid).
pub open spec fn is_valid_value(s: Seq<u8>) -> bool {
    forall|i: int| 0 <= i < s.len() ==> is_value_byte(s[i])
}

fn is_token_byte_exec(b: u8) -> (r: bool)
    ensures
        r == is_token_byte(b),
{
    b == 0x21 || (0x23 <= b && b <= 0x27) || b == 0x2a || b == 0x2b || b == 0x2d || b == 0x2e
        || (0x30 <= b && b <= 0x39) || (0x41 <= b && b <= 0x5a) || b == 0x5e || b == 0x5f
        || b == 0x60 || (0x61 <= b && b <= 0x7a) || b == 0x7c || b == 0x7e
}

fn is_value_byte_exec(b: u8) -> (r: bool)
    ensures
        r == is_value_byte(b),
{
    b == 0x09 || (0x20 <= b && b <= 0x7e)
}

pub(crate) fn bytes_eq(a: &Vec<u8>, b: &Vec<u8>) -> (r: bool)
    ensures
        r == (a@ == b@),
{
    if a.len() != b.len() {
        return false;
    }
    let mut i: usize = 0;
    while i < a.len()
        invariant
            i <= a.len(),
            a.len() == b.len(),
            forall|k: int| 0 <= k < i ==> a@[k] == b@[k],
        decreases a.len() - i,
    {
        if a[i] != b[i] {
            return false;
        }
        i = i + 1;
    }
    proof {
        assert(a@ =~= b@);
    }
    true
}

pub(crate) fn copy_bytes(v: &Vec<u8>) -> (r: Vec<u8>)
    ensures
        r@ == v@,
{
    let mut out: Vec<u8> = Vec::new();
    let mut i: usize = 0;
    while i < v.len()
        invariant
            i <= v.len(),
            out@ == v@.take(i as int),
        decreases v.len() - i,
    {
        out.push(v[i]);
        proof {
            assert(v@.take(i as int).push(v@[i as int]) =~= v@.take(i as int + 1));
        }
        i = i + 1;
    }
    proof {
        assert(v@.take(v.len() as int) =~= v@);
    }
    out
}

/// A case-insensitive header name, stored lower-cased. Only [`HeaderName::parse`]
/// constructs one, so every value satisfies [`HeaderName::wf`].
#[derive(Debug, Clone)]
pub struct HeaderName {
    bytes: Vec<u8>,
}

impl View for HeaderName {
    type V = Seq<u8>;

    closed spec fn view(&self) -> Seq<u8> {
        self.bytes@
    }
}

impl HeaderName {
    /// A well-formed name is a valid token with no upper-case letters.
    pub open spec fn wf(&self) -> bool {
        is_valid_name(self@) && is_lower(self@)
    }

    /// Parses a header name, normalizing it to lower case. Returns `Some`
    /// exactly when the bytes form a valid header-name token.
    pub fn parse(s: &Vec<u8>) -> (r: Option<HeaderName>)
        ensures
            r is Some <==> is_valid_name(s@),
            r matches Some(n) ==> n@ == lower(s@) && n.wf(),
    {
        if s.len() == 0 {
            return None;
        }
        let mut out: Vec<u8> = Vec::new();
        let mut i: usize = 0;
        while i < s.len()
            invariant
                s@.len() > 0,
                i <= s.len(),
                forall|k: int| 0 <= k < i ==> is_token_byte(s@[k]),
                out@ == lower(s@.take(i as int)),
            decreases s.len() - i,
        {
            let b = s[i];
            if !is_token_byte_exec(b) {
                proof {
                    assert(!is_token_byte(s@[i as int]));
                }
                return None;
            }
            let lb: u8 = if 0x41 <= b && b <= 0x5a {
                b + 0x20
            } else {
                b
            };
            out.push(lb);
            proof {
                assert(lower(s@.take(i as int)).push(to_lower_byte(s@[i as int])) =~= lower(
                    s@.take(i as int + 1),
                ));
            }
            i = i + 1;
        }
        proof {
            assert(s@.take(s@.len() as int) =~= s@);
            assert forall|k: int| 0 <= k < lower(s@).len() implies is_token_byte(lower(s@)[k])
                && !(0x41 <= lower(s@)[k] && lower(s@)[k] <= 0x5a) by {
                assert(is_token_byte(s@[k]));
            }
        }
        Some(HeaderName { bytes: out })
    }

    /// The name's bytes (lower-cased).
    pub fn as_bytes(&self) -> (r: &Vec<u8>)
        ensures
            r@ == self@,
    {
        &self.bytes
    }
}

/// A validated header value. Only [`HeaderValue::parse`] constructs one, so
/// every value satisfies [`HeaderValue::wf`].
#[derive(Debug, Clone)]
pub struct HeaderValue {
    bytes: Vec<u8>,
}

impl View for HeaderValue {
    type V = Seq<u8>;

    closed spec fn view(&self) -> Seq<u8> {
        self.bytes@
    }
}

impl HeaderValue {
    pub open spec fn wf(&self) -> bool {
        is_valid_value(self@)
    }

    /// Parses a header value. Returns `Some` exactly when every byte is a
    /// legal header-value byte; the bytes are kept as given.
    pub fn parse(s: &Vec<u8>) -> (r: Option<HeaderValue>)
        ensures
            r is Some <==> is_valid_value(s@),
            r matches Some(v) ==> v@ == s@ && v.wf(),
    {
        let mut i: usize = 0;
        while i < s.len()
            invariant
                i <= s.len(),
                forall|k: int| 0 <= k < i ==> is_value_byte(s@[k]),
            decreases s.len() - i,
        {
            if !is_value_byte_exec(s[i]) {
                proof {
                    assert(!is_value_byte(s@[i as int]));
                }
                return None;
            }
            i = i + 1;
        }
        Some(HeaderValue { bytes: copy_bytes(s) })
    }

    /// The value's bytes.
    pub fn as_bytes(&self) -> (r: &Vec<u8>)
        ensures
            r@ == self@,
    {
        &self.bytes
    }
}

/// Whether the map (viewed as a sequence of name/value pairs) holds any
/// entry with the given name.
pub open spec fn has_name(m: Seq<(Seq<u8>, Seq<u8>)>, n: Seq<u8>) -> bool {
    exists|i: int| 0 <= i < m.len() && m[i].0 == n
}

/// The values carried under the given name, in order of appearance.
pub open spec fn values_of(m: Seq<(Seq<u8>, Seq<u8>)>, n: Seq<u8>) -> Seq<Seq<u8>>
    decreases m.len(),
{
    if m.len() == 0 {
        Seq::empty()
    } else if m[0].0 == n {
        seq![m[0].1] + values_of(m.drop_first(), n)
    } else {
        values_of(m.drop_first(), n)
    }
}

/// An ordered multi-map of response headers: (name, value) pairs in
/// insertion order. Its view is the sequence of (name bytes, value bytes).
#[derive(Debug, Clone)]
pub struct HeaderMap {
    entries: Vec<(HeaderName, Vec<u8>)>,
}

impl View for HeaderMap {
    type V = Seq<(Seq<u8>, Seq<u8>)>;

    closed spec fn view(&self) -> Seq<(Seq<u8>, Seq<u8>)> {
        self.entries@.map_values(|e: (HeaderName, Vec<u8>)| (e.0@, e.1@))
    }
}

impl HeaderMap {
    /// An empty header map.
    pub fn new() -> (r: HeaderMap)
        ensures
            r@ == Seq::<(Seq<u8>, Seq<u8>)>::empty(),
    {
        let r = HeaderMap { entries: Vec::new() };
        proof {
            assert(r@ =~= Seq::<(Seq<u8>, Seq<u8>)>::empty());
        }
        r
    }

    /// Appends one (name, value) pair at the end, keeping all existing
    /// entries and their order.
    pub fn append(&mut self, name: &HeaderName, value: &Vec<u8>)
        ensures
            final(self)@ == old(self)@.push((name@, value@)),
    {
        let owned_name = HeaderName { bytes: copy_bytes(name.as_bytes()) };
        let owned_value = copy_bytes(value);
        self.entries.push((owned_name, owned_value));
        proof {
            assert(self@ =~= old(self)@.push((name@, value@)));
        }
    }

    /// Whether any entry carries the given name.
    pub fn contains_name(&self, name: &HeaderName) -> (r: bool)
        ensures
            r == has_name(self@, name@),
    {
        let mut i: usize = 0;
        while i < self.entries.len()
            invariant
                i <= self.entries.len(),
                forall|k: int| 0 <= k < i ==> self@[k].0 != name@,
        decreases self.entries.len() - i,
        {
            if bytes_eq(self.entries[i].0.as_bytes(), name.as_bytes()) {
                proof {
                    assert(self@[i as int].0 == name@);
                }
                return true;
            }
            proof {
                assert(self@[i as int].0 != name@);
            }
            i = i + 1;
        }
        false
    }

    /// The number of entries.
    pub fn len(&self) -> (r: usize)
        ensures
            r == self@.len(),
    {
        self.entries.len()
    }

    /// The name of the entry at the given position.
    pub fn name_at(&self, i: usize) -> (r: &Vec<u8>)
        requires
            i < self@.len(),
        ensures
            r@ == self@[i as int].0,
    {
        self.entries[i].0.as_bytes()
    }

    /// The value of the entry at the given position.
    pub fn value_at(&self, i: usize) -> (r: &Vec<u8>)
        requires
            i < self@.len(),
        ensures
            r@ == self@[i as int].1,
    {
        &self.entries[i].1
    }
}

} // verus!
