//! Little-endian byte readers, ASCII case folding, and the absolute-path
//! splitter used by the filesystem facade.

use vstd::prelude::*;

verus! {

/// The 16-bit little-endian value stored at byte offset `i` of `b`.
pub open spec fn le16(b: Seq<u8>, i: int) -> u16 {
    (b[i] as u16) | ((b[i + 1] as u16) << 8)
}

/// The 32-bit little-endian value stored at byte offset `i` of `b`.
pub open spec fn le32(b: Seq<u8>, i: int) -> u32 {
    (b[i] as u32) | ((b[i + 1] as u32) << 8) | ((b[i + 2] as u32) << 16) | ((b[i + 3] as u32)
        << 24)
}

/// Reads the 16-bit little-endian value at byte offset `i` of `s`.
pub fn read_le16(s: &[u8], i: usize) -> (r: u16)
    requires
        i + 2 <= s@.len(),
    ensures
        r == le16(s@, i as int),
{
    // Binding the length makes its usize bound visible, so `i + 1` cannot
    // overflow.
    let n: usize = s.len();
    let b0 = *vstd::slice::slice_index_get(s, i);
    let b1 = *vstd::slice::slice_index_get(s, i + 1);
    (b0 as u16) | ((b1 as u16) << 8)
}

/// Reads the 32-bit little-endian value at byte offset `i` of `s`.
pub fn read_le32(s: &[u8], i: usize) -> (r: u32)
    requires
        i + 4 <= s@.len(),
    ensures
        r == le32(s@, i as int),
{
    // As in `read_le16`, the binding rules out overflow in the offsets.
    let n: usize = s.len();
    let b0 = *vstd::slice::slice_index_get(s, i);
    let b1 = *vstd::slice::slice_index_get(s, i + 1);
    let b2 = *vstd::slice::slice_index_get(s, i + 2);
    let b3 = *vstd::slice::slice_index_get(s, i + 3);
    (b0 as u32) | ((b1 as u32) << 8) | ((b2 as u32) << 16) | ((b3 as u32) << 24)
}

/// Relies on `alloc::string::String::push`: appends one character at the end.
pub assume_specification [ String::push ](s: &mut String, ch: char)
    ensures
        final(s)@ == old(s)@.push(ch),
;

/// Relies on `core::char::from_u32`: `Some` exactly for valid Unicode scalar
/// values (not a surrogate, at most 0x10FFFF), and the returned character has
/// the given code point.
pub assume_specification [ char::from_u32 ](i: u32) -> (r: Option<char>)
    ensures
        r matches Some(c) ==> c as u32 == i,
        r is Some <==> (i < 0xD800 || (0xE000 <= i && i <= 0x10FFFF)),
;

/// `c` folded to ASCII lowercase; characters outside `A`..`Z` are unchanged.
pub open spec fn lower_char(c: char) -> char {
    if 0x41 <= c as u32 && c as u32 <= 0x5A {
        ((c as u32 + 0x20) as u8) as char
    } else {
        c
    }
}

/// `s` folded to ASCII lowercase, character by character.
pub open spec fn lower(s: Seq<char>) -> Seq<char> {
    Seq::new(s.len(), |i: int| lower_char(s[i]))
}

/// Folds one character to ASCII lowercase.
pub fn lower_char_exec(c: char) -> (r: char)
    ensures
        r == lower_char(c),
{
    let u = c as u32;
    if 0x41 <= u && u <= 0x5A {
        ((u as u8) + 0x20) as char
    } else {
        c
    }
}

/// Folds a string to ASCII lowercase.
pub fn lower_str(s: &str) -> (r: String)
    ensures
        r@ == lower(s@),
{
    let n = s.unicode_len();
    let mut out = String::new();
    let mut i: usize = 0;
    while i < n
        invariant
            i <= n,
            n == s@.len(),
            out@ == lower(s@).take(i as int),
        decreases n - i,
    {
        let c = s.get_char(i);
        out.push(lower_char_exec(c));
        proof {
            assert(lower(s@).take(i + 1) =~= lower(s@).take(i as int).push(lower_char(s@[i as int])));
        }
        i = i + 1;
    }
    proof {
        assert(lower(s@).take(n as int) =~= lower(s@));
    }
    out
}

/// An absolute path such as `/a/b/c`, held folded to ASCII lowercase.
#[derive(Debug)]
pub struct Path {
    abs_path: String,
}

/// The index of the first `/` in `s`, or `s.len()` if there is none.
pub open spec fn first_slash(s: Seq<char>) -> int
    decreases s.len(),
{
    if s.len() == 0 {
        0
    } else if s[0] == '/' {
        0
    } else {
        1 + first_slash(s.skip(1))
    }
}

/// `s` split on `/`. Splitting the empty sequence yields one empty segment.
pub open spec fn split_slash(s: Seq<char>) -> Seq<Seq<char>>
    decreases s.len(),
{
    let i = first_slash(s);
    if 0 <= i < s.len() {
        seq![s.take(i)] + split_slash(s.skip(i + 1))
    } else {
        seq![s]
    }
}

/// The segments of an absolute path: everything after the leading `/`, split
/// on `/`. A string that does not start with `/` has no segments.
pub open spec fn spec_segments(s: Seq<char>) -> Seq<Seq<char>> {
    if s.len() == 0 || s[0] != '/' {
        Seq::empty()
    } else {
        split_slash(s.skip(1))
    }
}

proof fn lemma_first_slash_at(s: Seq<char>, t: int)
    requires
        0 <= t <= s.len(),
        forall|m: int| 0 <= m < t ==> s[m] != '/',
        t == s.len() || s[t] == '/',
    ensures
        first_slash(s) == t,
    decreases t,
{
    if t == 0 {
    } else {
        assert(s[0] != '/');
        lemma_first_slash_at(s.skip(1), t - 1);
    }
}

impl Path {
    /// The lowercased path string this `Path` holds.
    pub closed spec fn view(&self) -> Seq<char> {
        self.abs_path@
    }

    /// Builds a `Path` from a string, folding it to ASCII lowercase.
    pub fn new(s: &str) -> (r: Path)
        ensures
            r@ == lower(s@),
    {
        Path { abs_path: lower_str(s) }
    }

    /// Splits the path into its segments: everything after the leading `/`,
    /// split on `/`. Returns no segments if the path does not start with `/`.
    pub fn parse(&self) -> (r: Vec<String>)
        ensures
            r.deep_view() == spec_segments(self@),
    {
        let s: &str = self.abs_path.as_str();
        let n = s.unicode_len();
        let mut segs: Vec<String> = Vec::new();
        if n == 0 || s.get_char(0) != '/' {
            proof {
                assert(segs.deep_view() =~= spec_segments(self@));
            }
            return segs;
        }
        let ghost tail = s@.skip(1);
        let mut cur = String::new();
        let mut start: usize = 1;
        let mut i: usize = 1;
        while i < n
            invariant
                1 <= start <= i <= n,
                n == s@.len(),
                s@[0] == '/',
                tail == s@.skip(1),
                cur@ == s@.subrange(start as int, i as int),
                forall|m: int| start <= m < i ==> s@[m] != '/',
                split_slash(tail) == segs.deep_view() + split_slash(s@.skip(start as int)),
            decreases n - i,
        {
            let c = s.get_char(i);
            if c == '/' {
                proof {
                    let rest = s@.skip(start as int);
                    assert forall|m: int| 0 <= m < i - start implies rest[m] != '/' by {
                        assert(rest[m] == s@[start + m]);
                    }
                    assert(rest[i - start] == '/');
                    lemma_first_slash_at(rest, i - start);
                    assert(rest.take(i - start) =~= cur@);
                    assert(rest.skip(i - start + 1) =~= s@.skip(i + 1));
                    assert(split_slash(rest) == seq![cur@] + split_slash(s@.skip(i + 1)));
                    assert((segs.deep_view() + seq![cur@]) + split_slash(s@.skip(i + 1)) =~= segs.deep_view() + (seq![cur@] + split_slash(s@.skip(i + 1))));
                }
                let ghost segs_old = segs.deep_view();
                let ghost cur_view = cur@;
                segs.push(cur);
                proof {
                    assert(segs.deep_view() =~= segs_old + seq![cur_view]);
                }
                cur = String::new();
                start = i + 1;
            } else {
                cur.push(c);
                proof {
                    assert(s@.subrange(start as int, i + 1) =~= s@.subrange(start as int, i as int).push(s@[i as int]));
                }
            }
            i = i + 1;
        }
        proof {
            let rest = s@.skip(start as int);
            assert forall|m: int| 0 <= m < n - start implies rest[m] != '/' by {
                assert(rest[m] == s@[start + m]);
            }
            lemma_first_slash_at(rest, n - start);
            assert(rest.take(n - start) =~= rest);
            assert(split_slash(rest) == seq![rest]);
            assert(cur@ =~= rest);
        }
        segs.push(cur);
        proof {
            assert(spec_segments(self@) == split_slash(tail));
            assert(segs.deep_view() =~= spec_segments(self@));
        }
        segs
    }
}

} // verus!
