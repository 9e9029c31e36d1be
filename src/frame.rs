use crate::package::{
    decode_range, decoded_view, spec_decode, DecodeError, Package, PackageView, BASIC_PACKAGE_SIZE,
    TERMINATOR,
};
use vstd::prelude::*;

verus! {

/// Position of the first terminator in `s` at or after index `i`.
pub open spec fn first_terminator(s: Seq<u8>, i: int) -> Option<int>
    decreases s.len() - i,
{
    if i < 0 || i >= s.len() {
        None
    } else if s[i] == TERMINATOR {
        Some(i)
    } else {
        first_terminator(s, i + 1)
    }
}

/// Last index of the frame at the front of `s`: the first terminator that leaves room
/// for an opcode and a payload byte before it.
pub open spec fn spec_frame_end(s: Seq<u8>) -> Option<int> {
    first_terminator(s, BASIC_PACKAGE_SIZE - 1)
}

/// The decoding results of the complete frames at the front of `s`, in order.
pub open spec fn split_frames(s: Seq<u8>) -> Seq<Result<PackageView, DecodeError>>
    decreases s.len(),
{
    match spec_frame_end(s) {
        Some(j) => if 0 <= j < s.len() {
            seq![spec_decode(s.subrange(0, j + 1))] + split_frames(s.subrange(j + 1, s.len() as int))
        } else {
            Seq::empty()
        },
        None => Seq::empty(),
    }
}

/// The bytes of `s` after its last complete frame, kept for a later datagram.
pub open spec fn leftover(s: Seq<u8>) -> Seq<u8>
    decreases s.len(),
{
    match spec_frame_end(s) {
        Some(j) => if 0 <= j < s.len() {
            leftover(s.subrange(j + 1, s.len() as int))
        } else {
            s
        },
        None => s,
    }
}

proof fn lemma_first_terminator_bounds(s: Seq<u8>, i: int)
    ensures
        first_terminator(s, i) matches Some(j) ==> i <= j < s.len() && j >= 0 && s[j] == TERMINATOR,
    decreases s.len() - i,
{
    if !(i < 0 || i >= s.len()) && s[i] != TERMINATOR {
        lemma_first_terminator_bounds(s, i + 1);
    }
}

/// Finds the end of the frame that starts at `start`, as an index into `buf`.
pub fn frame_end(buf: &[u8], start: usize) -> (r: Option<usize>)
    requires
        start <= buf@.len(),
    ensures
        match r {
            None => spec_frame_end(buf@.subrange(start as int, buf@.len() as int)) is None,
            Some(k) => spec_frame_end(buf@.subrange(start as int, buf@.len() as int)) == Some(
                k - start,
            ),
        },
{
    let ghost sub = buf@.subrange(start as int, buf@.len() as int);
    if buf.len() - start < BASIC_PACKAGE_SIZE {
        assert(first_terminator(sub, 2) is None);
        return None;
    }
    let mut i: usize = start + 2;
    while i < buf.len()
        invariant
            start + 2 <= i <= buf@.len(),
            sub == buf@.subrange(start as int, buf@.len() as int),
            spec_frame_end(sub) == first_terminator(sub, i - start),
        decreases buf@.len() - i,
    {
        if buf[i] == TERMINATOR {
            assert(sub[i - start] == TERMINATOR);
            return Some(i);
        }
        assert(sub[i - start] != TERMINATOR);
        i = i + 1;
    }
    None
}

/// Removes every complete frame from the front of `buf` and decodes each one in order.
/// A frame that does not decode yields its error and costs only its own bytes; what follows
/// the last complete frame stays in `buf`.
pub fn take_frames(buf: &mut Vec<u8>) -> (r: Vec<Result<Package, DecodeError>>)
    ensures
        r@.map_values(|x: Result<Package, DecodeError>| decoded_view(x)) == split_frames(old(buf)@),
        final(buf)@ == leftover(old(buf)@),
{
    let ghost s = buf@;
    let mut out: Vec<Result<Package, DecodeError>> = Vec::new();
    let mut pos: usize = 0;
    assert(s.subrange(0, s.len() as int) =~= s);
    loop
        invariant
            buf@ == s,
            pos <= s.len(),
            split_frames(s) == out@.map_values(|x: Result<Package, DecodeError>| decoded_view(x))
                + split_frames(s.subrange(pos as int, s.len() as int)),
            leftover(s) == leftover(s.subrange(pos as int, s.len() as int)),
        ensures
            pos <= s.len(),
            buf@ == s,
            split_frames(s) == out@.map_values(|x: Result<Package, DecodeError>| decoded_view(x))
                + split_frames(s.subrange(pos as int, s.len() as int)),
            leftover(s) == leftover(s.subrange(pos as int, s.len() as int)),
            spec_frame_end(s.subrange(pos as int, s.len() as int)) is None,
        decreases s.len() - pos,
    {
        let ghost sub = s.subrange(pos as int, s.len() as int);
        match frame_end(buf.as_slice(), pos) {
            None => {
                break ;
            },
            Some(e) => {
                let n: usize = buf.len();
                proof {
                    lemma_first_terminator_bounds(sub, 2);
                    assert(e < s.len());
                }
                let item = decode_range(buf.as_slice(), pos, e + 1);
                let ghost before = out@.map_values(|x: Result<Package, DecodeError>| decoded_view(x));
                out.push(item);
                proof {
                    assert(sub.subrange(0, e - pos + 1) =~= s.subrange(pos as int, e + 1));
                    assert(sub.subrange(e - pos + 1, sub.len() as int) =~= s.subrange(
                        e + 1,
                        s.len() as int,
                    ));
                    assert(out@.map_values(|x: Result<Package, DecodeError>| decoded_view(x))
                        =~= before.push(decoded_view(item)));
                    assert(split_frames(sub) == seq![decoded_view(item)] + split_frames(
                        s.subrange(e + 1, s.len() as int),
                    ));
                    assert(before.push(decoded_view(item)) + split_frames(
                        s.subrange(e + 1, s.len() as int),
                    ) =~= before + (seq![decoded_view(item)] + split_frames(
                        s.subrange(e + 1, s.len() as int),
                    )));
                }
                pos = e + 1;
            },
        }
    }
    let ghost rest = s.subrange(pos as int, s.len() as int);
    assert(split_frames(rest) =~= Seq::<Result<PackageView, DecodeError>>::empty());
    assert(leftover(rest) == rest);
    let mut kept: Vec<u8> = Vec::with_capacity(buf.len() - pos);
    let mut i: usize = pos;
    while i < buf.len()
        invariant
            buf@ == s,
            pos <= i <= s.len(),
            kept@ == s.subrange(pos as int, i as int),
        decreases s.len() - i,
    {
        kept.push(buf[i]);
        i = i + 1;
        proof {
            assert(kept@ =~= s.subrange(pos as int, i as int));
        }
    }
    *buf = kept;
    assert(out@.map_values(|x: Result<Package, DecodeError>| decoded_view(x)) + Seq::empty()
        =~= out@.map_values(|x: Result<Package, DecodeError>| decoded_view(x)));
    out
}

proof fn lemma_first_terminator_prefix(a: Seq<u8>, b: Seq<u8>, i: int)
    requires
        first_terminator(a, i) is Some,
    ensures
        first_terminator(a + b, i) == first_terminator(a, i),
    decreases a.len() - i,
{
    if !(i < 0 || i >= a.len()) && a[i] != TERMINATOR {
        lemma_first_terminator_prefix(a, b, i + 1);
    }
}

/// Frames that follow a completely framed prefix are decoded exactly as they would be on
/// their own, whatever the prefix's frames decode to: a malformed frame costs only itself.
pub proof fn lemma_frames_after_prefix(a: Seq<u8>, b: Seq<u8>)
    requires
        leftover(a).len() == 0,
    ensures
        split_frames(a + b) == split_frames(a) + split_frames(b),
        leftover(a + b) == leftover(b),
    decreases a.len(),
{
    if a.len() == 0 {
        assert(a + b =~= b);
        assert(split_frames(a) =~= Seq::<Result<PackageView, DecodeError>>::empty());
        assert(split_frames(a) + split_frames(b) =~= split_frames(b));
    } else {
        lemma_first_terminator_bounds(a, 2);
        let j = spec_frame_end(a).unwrap();
        lemma_first_terminator_prefix(a, b, 2);
        let ab = a + b;
        let a2 = a.subrange(j + 1, a.len() as int);
        assert(ab.subrange(0, j + 1) =~= a.subrange(0, j + 1));
        assert(ab.subrange(j + 1, ab.len() as int) =~= a2 + b);
        lemma_frames_after_prefix(a2, b);
        let head = seq![spec_decode(a.subrange(0, j + 1))];
        assert(head + (split_frames(a2) + split_frames(b)) =~= (head + split_frames(a2))
            + split_frames(b));
    }
}

} // verus!
