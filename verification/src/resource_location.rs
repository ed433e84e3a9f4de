//! Resource locations: `namespace:path` names of game assets, where the
//! namespace (with its colon) may be left out.

use vstd::prelude::*;
use vstd::string::is_ascii;
use vstd::string::StringSliceAdditionalSpecFns;
use vstd::string::StrSliceExecFns;
use vstd::utf8::is_ascii_chars;

verus! {

/// A character allowed in a namespace or a path segment.
pub open spec fn is_valid_char_spec(c: char) -> bool {
    ('0' <= c && c <= '9') || ('a' <= c && c <= 'z') || c == '_' || c == '-' || c == '.'
}

/// True of the characters allowed in a namespace or a path segment.
pub fn is_valid_char(b: char) -> (r: bool)
    ensures
        r == is_valid_char_spec(b),
{
    ('0' <= b && b <= '9') || ('a' <= b && b <= 'z') || b == '_' || b == '-' || b == '.'
}

/// What makes a text a resource location:
/// - every character is allowed, a `:` or a `/`;
/// - there is at most one `:`, and no `/` before it;
/// - the namespace before the `:` is neither empty nor `..`, and the path
///   after it is not empty;
/// - the text is not empty.
pub open spec fn valid_location(s: Seq<char>) -> bool {
    &&& s.len() > 0
    &&& forall|i: int| 0 <= i < s.len() ==> is_valid_char_spec(#[trigger] s[i]) || s[i] == ':' || s[i] == '/'
    &&& forall|i: int, j: int| 0 <= i < j < s.len() && #[trigger] s[j] == ':' ==> #[trigger] s[i] != ':' && s[i] != '/'
    &&& forall|k: int|
        0 <= k < s.len() && #[trigger] s[k] == ':' ==> k != 0 && k + 1 < s.len() && s.take(k) != seq!['.', '.']
}

/// A validated resource location.
#[derive(Debug)]
pub struct ResourceLocation {
    inner: String,
}

impl View for ResourceLocation {
    type V = Seq<char>;

    closed spec fn view(&self) -> Seq<char> {
        self.inner@
    }
}

/// The namespace used when a location names none.
pub open spec fn default_namespace() -> Seq<char> {
    seq!['m', 'i', 'n', 'e', 'c', 'r', 'a', 'f', 't']
}

/// The position of the `:` in `s`, if it has one.
pub open spec fn colon_index(s: Seq<char>) -> Option<int> {
    if exists|k: int| 0 <= k < s.len() && #[trigger] s[k] == ':' {
        Some(choose|k: int| 0 <= k < s.len() && #[trigger] s[k] == ':')
    } else {
        None
    }
}

/// The namespace of the location `s`: the text before its `:`, or the
/// default namespace when it has none.
pub open spec fn namespace_of(s: Seq<char>) -> Seq<char> {
    match colon_index(s) {
        Some(k) => s.take(k),
        None => default_namespace(),
    }
}

/// The path of the location `s`: the text after its `:`, or all of it.
pub open spec fn path_of(s: Seq<char>) -> Seq<char> {
    match colon_index(s) {
        Some(k) => s.skip(k + 1),
        None => s,
    }
}

impl Clone for ResourceLocation {
    fn clone(&self) -> (r: Self)
        ensures
            r@ == self@,
    {
        proof {
            use_type_invariant(self);
        }
        ResourceLocation { inner: self.inner.clone() }
    }
}

impl ResourceLocation {
    #[verifier::type_invariant]
    spec fn inv(&self) -> bool {
        is_ascii_chars(self.inner@) && valid_location(self.inner@)
    }

    /// True if and only if `str` is ASCII and a valid resource location.
    pub fn check(str: &str) -> (r: bool)
        ensures
            r == (is_ascii(str) && valid_location(str@)),
    {
        broadcast use vstd::string::is_ascii_spec_bytes;

        if !str.is_ascii() {
            return false;
        }
        let bytes = str.as_bytes();
        let ghost s = str@;
        assert(bytes@.len() == s.len());
        let mut passed_namespace = false;
        let mut colon_pos: Option<usize> = None;
        let mut i: usize = 0;
        while i < bytes.len()
            invariant
                is_ascii(str),
                s == str@,
                bytes@ == str.spec_bytes(),
                bytes@.len() == s.len(),
                forall|j: int| 0 <= j < s.len() ==> #[trigger] bytes@[j] == s[j] as u8,
                forall|j: int| 0 <= j < s.len() ==> (#[trigger] s[j] as u32) < 128,
                i <= s.len(),
                passed_namespace == exists|j: int| 0 <= j < i && (#[trigger] s[j] == ':' || s[j] == '/'),
                forall|j: int| 0 <= j < i ==> is_valid_char_spec(#[trigger] s[j]) || s[j] == ':' || s[j] == '/',
                forall|j1: int, j2: int| 0 <= j1 < j2 < i && #[trigger] s[j2] == ':' ==> #[trigger] s[j1] != ':' && s[j1] != '/',
                colon_pos.is_none() ==> forall|j: int| 0 <= j < i ==> #[trigger] s[j] != ':',
                colon_pos.is_some() ==> colon_pos.unwrap() < i && s[colon_pos.unwrap() as int] == ':',
            decreases s.len() - i,
        {
            let c = bytes[i];
            proof {
                assert(c == s[i as int] as u8);
            }
            if !passed_namespace && colon_pos.is_none() && c == 58u8 {
                proof {
                    assert(s[i as int] == ':');
                }
                passed_namespace = true;
                colon_pos = Some(i);
            } else {
                let is_valid = is_valid_char(c as char);
                proof {
                    assert(c as u32 == s[i as int] as u32);
                }
                if !is_valid {
                    if c == 47u8 {
                        passed_namespace = true;
                    } else {
                        proof {
                            if s[i as int] == ':' {
                                if !passed_namespace {
                                    assert(s[colon_pos.unwrap() as int] == ':');
                                }
                                let j = choose|j: int| 0 <= j < i && (#[trigger] s[j] == ':' || s[j] == '/');
                                assert(!valid_location(s));
                            } else {
                                assert(!(is_valid_char_spec(s[i as int]) || s[i as int] == ':' || s[i as int] == '/'));
                            }
                        }
                        return false;
                    }
                }
            }
            i = i + 1;
        }
        match colon_pos {
            Some(idx) => {
                let not_dots = !(idx == 2 && bytes[0] == 46u8 && bytes[1] == 46u8);
                proof {
                    if idx == 2 && s[0] == '.' && s[1] == '.' {
                        assert(s.take(2) =~= seq!['.', '.']);
                    }
                    if s.take(idx as int) == seq!['.', '.'] {
                        assert(s.take(idx as int).len() == 2);
                        assert(s[0] == s.take(idx as int)[0]);
                        assert(s[1] == s.take(idx as int)[1]);
                    }
                }
                idx != 0 && (bytes.len() > idx + 1) && not_dots
            },
            None => bytes.len() != 0,
        }
    }

    /// The location of air, `minecraft:air`.
    pub fn air() -> (r: Self)
        ensures
            r@ == "minecraft:air"@,
    {
        let text = "minecraft:air";
        proof {
            reveal_strlit("minecraft:air");
            let t = text@;
            assert(t.len() == 13);
            assert forall|i: int| 0 <= i < t.len() implies is_valid_char_spec(#[trigger] t[i]) || t[i] == ':' || t[i] == '/' by {
                if i == 0 {} else if i == 1 {} else if i == 2 {} else if i == 3 {} else if i == 4 {} else if i == 5 {}
                else if i == 6 {} else if i == 7 {} else if i == 8 {} else if i == 9 {} else if i == 10 {} else if i == 11 {} else {}
            }
            assert forall|k: int| 0 <= k < t.len() && #[trigger] t[k] == ':' implies k == 9 by {
                if k == 0 {} else if k == 1 {} else if k == 2 {} else if k == 3 {} else if k == 4 {} else if k == 5 {}
                else if k == 6 {} else if k == 7 {} else if k == 8 {} else if k == 9 {} else if k == 10 {} else if k == 11 {} else {}
            }
            assert forall|i: int| 0 <= i < 9 implies #[trigger] t[i] != ':' && t[i] != '/' by {
                if i == 0 {} else if i == 1 {} else if i == 2 {} else if i == 3 {} else if i == 4 {} else if i == 5 {}
                else if i == 6 {} else if i == 7 {} else {}
            }
            assert(t.take(9) != seq!['.', '.']) by {
                assert(t.take(9).len() == 9);
            }
            assert forall|i: int| 0 <= i < t.len() implies (#[trigger] t[i] as u32) < 128 by {
                if i == 0 {} else if i == 1 {} else if i == 2 {} else if i == 3 {} else if i == 4 {} else if i == 5 {}
                else if i == 6 {} else if i == 7 {} else if i == 8 {} else if i == 9 {} else if i == 10 {} else if i == 11 {} else {}
            }
            assert(valid_location(t));
        }
        ResourceLocation { inner: text.to_owned() }
    }

    /// The location named by `str`, if it is one.
    pub fn new(str: &str) -> (r: Option<Self>)
        ensures
            r.is_some() == (is_ascii(str) && valid_location(str@)),
            r.is_some() ==> r.unwrap()@ == str@,
    {
        if Self::check(str) {
            Some(ResourceLocation { inner: str.to_owned() })
        } else {
            None
        }
    }

    /// The text of the location.
    pub fn as_str(&self) -> (r: &str)
        ensures
            r@ == self@,
            valid_location(r@),
    {
        proof {
            use_type_invariant(self);
        }
        self.inner.as_str()
    }

    /// The position of the `:`, if there is one.
    fn find_colon(&self) -> (r: Option<usize>)
        ensures
            r matches Some(k) ==> colon_index(self@) == Some(k as int),
            r is None ==> colon_index(self@) is None,
    {
        proof {
            use_type_invariant(self);
        }
        let text = self.inner.as_str();
        let n = text.unicode_len();
        let mut i: usize = 0;
        while i < n
            invariant
                text@ == self@,
                valid_location(self@),
                n == self@.len(),
                i <= n,
                forall|j: int| 0 <= j < i ==> #[trigger] self@[j] != ':',
            decreases n - i,
        {
            if text.get_char(i) == ':' {
                proof {
                    let k = choose|k: int| 0 <= k < self@.len() && #[trigger] self@[k] == ':';
                    if k != i as int {
                        assert(valid_location(self@));
                        if k < i {
                            assert(self@[k] != ':');
                        } else {
                            assert(self@[i as int] != ':');
                        }
                    }
                }
                return Some(i);
            }
            i = i + 1;
        }
        None
    }

    /// The namespace: the text before the `:`, or `minecraft` when there is
    /// no `:`.
    pub fn namespace(&self) -> (r: &str)
        ensures
            r@ == namespace_of(self@),
    {
        proof {
            use_type_invariant(self);
        }
        match self.find_colon() {
            Some(k) => {
                let text = self.inner.as_str();
                assert(is_ascii_chars(text@));
                text.substring_ascii(0, k)
            },
            None => {
                let d = "minecraft";
                proof {
                    reveal_strlit("minecraft");
                }
                d
            },
        }
    }

    /// The path: the text after the `:`, or all of it when there is no `:`.
    pub fn path(&self) -> (r: &str)
        ensures
            r@ == path_of(self@),
    {
        proof {
            use_type_invariant(self);
        }
        let text = self.inner.as_str();
        match self.find_colon() {
            Some(k) => {
                let n = text.unicode_len();
                assert(0 <= k < self@.len());
                text.substring_ascii(k + 1, n)
            },
            None => text,
        }
    }
}

/// The integer whose little-endian bytes are `b`.
pub open spec fn le_value(b: Seq<u8>) -> int {
    b[0] as int + b[1] as int * 0x100 + b[2] as int * 0x10000 + b[3] as int * 0x1000000
        + b[4] as int * 0x100000000 + b[5] as int * 0x10000000000 + b[6] as int * 0x1000000000000
        + b[7] as int * 0x100000000000000
}

/// The integer whose big-endian bytes are `b`.
pub open spec fn be_value(b: Seq<u8>) -> int {
    le_value(b.reverse())
}

/// Reads eight bytes in the machine's byte order, through
/// `u64::from_ne_bytes`; the result is the little-endian or the big-endian
/// reading, depending on the machine.
#[verifier::external_body]
fn u64_from_ne_bytes(bytes: [u8; 8]) -> (r: u64)
    ensures
        r == le_value(bytes@) || r == be_value(bytes@),
{
    u64::from_ne_bytes(bytes)
}

/// A hasher for keys that already are hashes: it keeps the eight bytes it
/// is given, read as an integer in the machine's byte order.
pub struct PassThroughHasher {
    hash: u64,
}

impl PassThroughHasher {
    /// The hash kept by the last write.
    pub closed spec fn value(&self) -> u64 {
        self.hash
    }

    /// The kept hash.
    pub fn finish(&self) -> (r: u64)
        ensures
            r == self.value(),
    {
        self.hash
    }

    /// Keeps `bytes`, which must be exactly eight, as the hash.
    pub fn write(&mut self, bytes: &[u8])
        requires
            bytes@.len() == 8,
        ensures
            final(self).value() == le_value(bytes@) || final(self).value() == be_value(bytes@),
    {
        let arr: [u8; 8] = [bytes[0], bytes[1], bytes[2], bytes[3], bytes[4], bytes[5], bytes[6], bytes[7]];
        assert(arr@ =~= bytes@);
        self.hash = u64_from_ne_bytes(arr);
    }
}

impl Default for PassThroughHasher {
    fn default() -> (r: Self)
        ensures
            r.value() == 0,
    {
        PassThroughHasher { hash: 0 }
    }
}

} // verus!
