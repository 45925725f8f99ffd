//! Lossless store serialization.
//!
//! A store is encoded as a flat byte record: every integer is eight bytes,
//! least-significant first; byte strings and lists carry their length up
//! front; user ids travel as their UTF-8 bytes.  Decoding is proved to invert
//! encoding exactly, so a saved store loads back field for field — the
//! caller only has to move the bytes to and from durable storage.

use vstd::prelude::*;
use vstd::utf8::{decode_utf8, encode_utf8, valid_utf8};
use crate::errors::FaceError;
use crate::store::{FaceDatabase, ProfileView, SampleView, StoreView};

verus! {

broadcast use vstd::utf8::encode_utf8_valid_utf8, vstd::utf8::encode_utf8_decode_utf8;

/// `256 ^ n`.
pub open spec fn pow256(n: nat) -> nat
    decreases n,
{
    if n == 0 {
        1
    } else {
        256 * pow256((n - 1) as nat)
    }
}

/// A value serialized into `n` bytes, least-significant first.
pub open spec fn ser_le(v: nat, n: nat) -> Seq<u8>
    decreases n,
{
    if n == 0 {
        Seq::empty()
    } else {
        seq![(v % 256) as u8] + ser_le(v / 256, (n - 1) as nat)
    }
}

/// An eight-byte integer.
pub open spec fn ser_u64(v: u64) -> Seq<u8> {
    ser_le(v as nat, 8)
}

/// The value read from `n` bytes at `i`, least-significant first.
pub open spec fn le_val(s: Seq<u8>, i: int, n: nat) -> nat
    decreases n,
{
    if n == 0 {
        0
    } else {
        s[i] as nat + 256 * le_val(s, i + 1, (n - 1) as nat)
    }
}

/// A length-prefixed byte string.
pub open spec fn ser_bytes(b: Seq<u8>) -> Seq<u8> {
    ser_u64(b.len() as u64) + b
}

/// A length-prefixed UTF-8 string.
pub open spec fn ser_string(s: Seq<char>) -> Seq<u8> {
    ser_bytes(encode_utf8(s))
}

/// A tagged optional integer.
pub open spec fn ser_opt_u64(o: Option<u64>) -> Seq<u8> {
    match o {
        None => seq![0u8],
        Some(v) => seq![1u8] + ser_u64(v),
    }
}

/// The integers of a list, without a length prefix.
pub open spec fn ser_u64s(d: Seq<u64>) -> Seq<u8>
    decreases d.len(),
{
    if d.len() == 0 {
        Seq::empty()
    } else {
        ser_u64(d[0]) + ser_u64s(d.drop_first())
    }
}

/// One sample: its descriptor (length-prefixed), confidence, timestamp and
/// id.
pub open spec fn ser_sample(s: SampleView) -> Seq<u8> {
    ser_u64(s.descriptor.len() as u64) + ser_u64s(s.descriptor) + ser_u64(s.confidence) + ser_u64(
        s.timestamp,
    ) + ser_u64(s.sample_id)
}

/// The samples of a profile, without a length prefix.
pub open spec fn ser_samples(ss: Seq<SampleView>) -> Seq<u8>
    decreases ss.len(),
{
    if ss.len() == 0 {
        Seq::empty()
    } else {
        ser_sample(ss[0]) + ser_samples(ss.drop_first())
    }
}

/// One profile: user id, samples (length-prefixed), and metadata.
pub open spec fn ser_profile(p: ProfileView) -> Seq<u8> {
    ser_string(p.user_id) + ser_u64(p.samples.len() as u64) + ser_samples(p.samples) + ser_u64(
        p.enrollment_date,
    ) + ser_opt_u64(p.last_authentication) + ser_u64(p.authentication_count)
}

/// The profiles of a store, without a length prefix.
pub open spec fn ser_profiles(ps: Seq<ProfileView>) -> Seq<u8>
    decreases ps.len(),
{
    if ps.len() == 0 {
        Seq::empty()
    } else {
        ser_profile(ps[0]) + ser_profiles(ps.drop_first())
    }
}

/// The whole store: schema version, policy fields, id counter, profiles.
pub open spec fn ser_store(v: StoreView) -> Seq<u8> {
    ser_u64(v.version) + ser_u64(v.accuracy_threshold) + ser_u64(v.min_samples_per_user as u64)
        + ser_u64(v.max_samples_per_user as u64) + ser_u64(v.next_sample_id) + ser_u64(
        v.users.len() as u64,
    ) + ser_profiles(v.users)
}

/// Lengths small enough for the eight-byte prefixes.  Values held in vectors
/// and strings always satisfy this.
pub open spec fn encodable_samples(ss: Seq<SampleView>) -> bool {
    forall|k: int| 0 <= k < ss.len() ==> (#[trigger] ss[k]).descriptor.len() <= u64::MAX
}

/// Encodable profiles: bounded sample lists, descriptors and id bytes.
pub open spec fn encodable_profiles(ps: Seq<ProfileView>) -> bool {
    forall|k: int|
        0 <= k < ps.len() ==> {
            &&& encode_utf8((#[trigger] ps[k]).user_id).len() <= u64::MAX
            &&& ps[k].samples.len() <= u64::MAX
            &&& encodable_samples(ps[k].samples)
        }
}

/// An encodable store.
pub open spec fn encodable(v: StoreView) -> bool {
    v.users.len() <= u64::MAX && encodable_profiles(v.users)
}

// --- Parsing --------------------------------------------------------------

/// Read an eight-byte integer; yields the value and the next offset.
pub open spec fn parse_u64(s: Seq<u8>, i: int) -> Option<(u64, int)> {
    if 0 <= i && i + 8 <= s.len() {
        Some((le_val(s, i, 8) as u64, i + 8))
    } else {
        None
    }
}

/// Read a length-prefixed byte string.
pub open spec fn parse_bytes(s: Seq<u8>, i: int) -> Option<(Seq<u8>, int)> {
    match parse_u64(s, i) {
        None => None,
        Some((len, j)) => if j + len <= s.len() {
            Some((s.subrange(j, j + len), j + len))
        } else {
            None
        },
    }
}

/// Read a length-prefixed UTF-8 string.
pub open spec fn parse_string(s: Seq<u8>, i: int) -> Option<(Seq<char>, int)> {
    match parse_bytes(s, i) {
        None => None,
        Some((b, j)) => if valid_utf8(b) {
            Some((decode_utf8(b), j))
        } else {
            None
        },
    }
}

/// Read a tagged optional integer.
pub open spec fn parse_opt_u64(s: Seq<u8>, i: int) -> Option<(Option<u64>, int)> {
    if 0 <= i && i + 1 <= s.len() {
        if s[i] == 0u8 {
            Some((None, i + 1))
        } else if s[i] == 1u8 {
            match parse_u64(s, i + 1) {
                None => None,
                Some((v, j)) => Some((Some(v), j)),
            }
        } else {
            None
        }
    } else {
        None
    }
}

/// Read `count` integers.
pub open spec fn parse_u64s(s: Seq<u8>, i: int, count: nat) -> Option<(Seq<u64>, int)>
    decreases count,
{
    if count == 0 {
        Some((Seq::empty(), i))
    } else {
        match parse_u64(s, i) {
            None => None,
            Some((v, j)) => match parse_u64s(s, j, (count - 1) as nat) {
                None => None,
                Some((rest, k)) => Some((seq![v] + rest, k)),
            },
        }
    }
}

/// Read one sample.
pub open spec fn parse_sample(s: Seq<u8>, i: int) -> Option<(SampleView, int)> {
    match parse_u64(s, i) {
        None => None,
        Some((dlen, j0)) => match parse_u64s(s, j0, dlen as nat) {
            None => None,
            Some((descriptor, j1)) => match parse_u64(s, j1) {
                None => None,
                Some((confidence, j2)) => match parse_u64(s, j2) {
                    None => None,
                    Some((timestamp, j3)) => match parse_u64(s, j3) {
                        None => None,
                        Some((sample_id, j4)) => Some(
                            (SampleView { descriptor, confidence, timestamp, sample_id }, j4),
                        ),
                    },
                },
            },
        },
    }
}

/// Read `count` samples.
pub open spec fn parse_samples(s: Seq<u8>, i: int, count: nat) -> Option<(Seq<SampleView>, int)>
    decreases count,
{
    if count == 0 {
        Some((Seq::empty(), i))
    } else {
        match parse_sample(s, i) {
            None => None,
            Some((v, j)) => match parse_samples(s, j, (count - 1) as nat) {
                None => None,
                Some((rest, k)) => Some((seq![v] + rest, k)),
            },
        }
    }
}

/// Read one profile.
pub open spec fn parse_profile(s: Seq<u8>, i: int) -> Option<(ProfileView, int)> {
    match parse_string(s, i) {
        None => None,
        Some((user_id, j0)) => match parse_u64(s, j0) {
            None => None,
            Some((slen, j1)) => match parse_samples(s, j1, slen as nat) {
                None => None,
                Some((samples, j2)) => match parse_u64(s, j2) {
                    None => None,
                    Some((enrollment_date, j3)) => match parse_opt_u64(s, j3) {
                        None => None,
                        Some((last_authentication, j4)) => match parse_u64(s, j4) {
                            None => None,
                            Some((authentication_count, j5)) => Some(
                                (
                                    ProfileView {
                                        user_id,
                                        samples,
                                        enrollment_date,
                                        last_authentication,
                                        authentication_count,
                                    },
                                    j5,
                                ),
                            ),
                        },
                    },
                },
            },
        },
    }
}

/// Read `count` profiles.
pub open spec fn parse_profiles(s: Seq<u8>, i: int, count: nat) -> Option<(Seq<ProfileView>, int)>
    decreases count,
{
    if count == 0 {
        Some((Seq::empty(), i))
    } else {
        match parse_profile(s, i) {
            None => None,
            Some((v, j)) => match parse_profiles(s, j, (count - 1) as nat) {
                None => None,
                Some((rest, k)) => Some((seq![v] + rest, k)),
            },
        }
    }
}

/// Read a whole store.
pub open spec fn parse_store(s: Seq<u8>, i: int) -> Option<(StoreView, int)> {
    match parse_u64(s, i) {
        None => None,
        Some((version, j0)) => match parse_u64(s, j0) {
            None => None,
            Some((accuracy_threshold, j1)) => match parse_u64(s, j1) {
                None => None,
                Some((min_s, j2)) => match parse_u64(s, j2) {
                    None => None,
                    Some((max_s, j3)) => match parse_u64(s, j3) {
                        None => None,
                        Some((next_sample_id, j4)) => match parse_u64(s, j4) {
                            None => None,
                            Some((ulen, j5)) => match parse_profiles(s, j5, ulen as nat) {
                                None => None,
                                Some((users, j6)) => if min_s <= usize::MAX && max_s
                                    <= usize::MAX {
                                    Some(
                                        (
                                            StoreView {
                                                users,
                                                version,
                                                accuracy_threshold,
                                                min_samples_per_user: min_s as usize,
                                                max_samples_per_user: max_s as usize,
                                                next_sample_id,
                                            },
                                            j6,
                                        ),
                                    )
                                } else {
                                    None
                                },
                            },
                        },
                    },
                },
            },
        },
    }
}


// --- Round trip: parsing inverts serialization ----------------------------

/// `ser_le` produces exactly `n` bytes.
proof fn lemma_ser_le_len(v: nat, n: nat)
    ensures
        ser_le(v, n).len() == n,
    decreases n,
{
    if n > 0 {
        lemma_ser_le_len(v / 256, (n - 1) as nat);
    }
}

/// `ser_u64s` produces eight bytes per entry.
proof fn lemma_ser_u64s_len(d: Seq<u64>)
    ensures
        ser_u64s(d).len() == 8 * d.len(),
    decreases d.len(),
{
    if d.len() > 0 {
        lemma_ser_le_len(d[0] as nat, 8);
        lemma_ser_u64s_len(d.drop_first());
    }
}

/// Powers of 256 are positive.
proof fn lemma_pow256_pos(n: nat)
    ensures
        pow256(n) >= 1,
    decreases n,
{
    if n > 0 {
        lemma_pow256_pos((n - 1) as nat);
    }
}

/// Reading back `n` little-endian bytes of a value below `256 ^ n` yields the
/// value.
proof fn lemma_le_val_ser(s: Seq<u8>, i: int, v: nat, n: nat)
    requires
        v < pow256(n),
        0 <= i,
        i + n <= s.len(),
        forall|k: int| 0 <= k < n ==> s[i + k] == ser_le(v, n)[k],
    ensures
        le_val(s, i, n) == v,
    decreases n,
{
    if n > 0 {
        lemma_ser_le_len(v / 256, (n - 1) as nat);
        assert(ser_le(v, n)[0] == (v % 256) as u8);
        assert(s[i] == (v % 256) as u8);
        assert(s[i] as nat == v % 256);
        assert(v / 256 < pow256((n - 1) as nat)) by (nonlinear_arith)
            requires
                v < 256 * pow256((n - 1) as nat),
                v >= 0,
        ;
        assert forall|k: int| 0 <= k < n - 1 implies s[i + 1 + k] == #[trigger] (ser_le(
            v / 256,
            (n - 1) as nat,
        )[k]) by {
            assert(s[i + 1 + k] == ser_le(v, n)[1 + k]);
        }
        lemma_le_val_ser(s, i + 1, v / 256, (n - 1) as nat);
        vstd::arithmetic::div_mod::lemma_fundamental_div_mod(v as int, 256);
    }
}

/// `pow256(8)` covers exactly the 64-bit values.
proof fn lemma_pow256_8()
    ensures
        pow256(8) == 0x10000000000000000,
{
    reveal_with_fuel(pow256, 9);
}

/// An embedded eight-byte integer parses back to itself.
proof fn lemma_parse_u64_ser(s: Seq<u8>, i: int, v: u64)
    requires
        0 <= i,
        i + 8 <= s.len(),
        s.subrange(i, i + 8) == ser_u64(v),
    ensures
        parse_u64(s, i) == Some((v, i + 8)),
{
    lemma_pow256_8();
    lemma_ser_le_len(v as nat, 8);
    assert forall|k: int| 0 <= k < 8 implies s[i + k] == ser_le(v as nat, 8)[k] by {
        assert(s.subrange(i, i + 8)[k] == s[i + k]);
    }
    lemma_le_val_ser(s, i, v as nat, 8);
}

/// An embedded length-prefixed byte string parses back to itself.
proof fn lemma_parse_bytes_ser(s: Seq<u8>, i: int, b: Seq<u8>)
    requires
        0 <= i,
        b.len() <= u64::MAX,
        i + ser_bytes(b).len() <= s.len(),
        s.subrange(i, i + ser_bytes(b).len()) == ser_bytes(b),
    ensures
        parse_bytes(s, i) == Some((b, i + ser_bytes(b).len())),
        ser_bytes(b).len() == 8 + b.len(),
{
    let l = b.len() as u64;
    lemma_ser_le_len(l as nat, 8);
    assert(ser_bytes(b).len() == 8 + b.len());
    assert(s.subrange(i, i + 8) =~= ser_u64(l)) by {
        assert forall|k: int| 0 <= k < 8 implies s.subrange(i, i + 8)[k] == ser_u64(l)[k] by {
            assert(s[i + k] == s.subrange(i, i + ser_bytes(b).len())[k]);
            assert(ser_bytes(b)[k] == ser_u64(l)[k]);
        }
    }
    lemma_parse_u64_ser(s, i, l);
    assert(s.subrange(i + 8, i + 8 + b.len()) =~= b) by {
        assert forall|k: int| 0 <= k < b.len() implies s.subrange(i + 8, i + 8 + b.len())[k]
            == b[k] by {
            assert(s[i + 8 + k] == s.subrange(i, i + ser_bytes(b).len())[8 + k]);
            assert(ser_bytes(b)[8 + k] == b[k]);
        }
    }
}

/// An embedded UTF-8 string parses back to itself.
proof fn lemma_parse_string_ser(s: Seq<u8>, i: int, cs: Seq<char>)
    requires
        0 <= i,
        encode_utf8(cs).len() <= u64::MAX,
        i + ser_string(cs).len() <= s.len(),
        s.subrange(i, i + ser_string(cs).len()) == ser_string(cs),
    ensures
        parse_string(s, i) == Some((cs, i + ser_string(cs).len())),
        ser_string(cs).len() == 8 + encode_utf8(cs).len(),
{
    lemma_parse_bytes_ser(s, i, encode_utf8(cs));
}

/// An embedded optional integer parses back to itself.
proof fn lemma_parse_opt_u64_ser(s: Seq<u8>, i: int, o: Option<u64>)
    requires
        0 <= i,
        i + ser_opt_u64(o).len() <= s.len(),
        s.subrange(i, i + ser_opt_u64(o).len()) == ser_opt_u64(o),
    ensures
        parse_opt_u64(s, i) == Some((o, i + ser_opt_u64(o).len())),
        ser_opt_u64(o).len() == (if o is Some { 9int } else { 1int }),
{
    match o {
        None => {
            assert(s[i] == s.subrange(i, i + 1)[0]);
        },
        Some(v) => {
            lemma_ser_le_len(v as nat, 8);
            assert(ser_opt_u64(o).len() == 9);
            assert(s[i] == s.subrange(i, i + 9)[0]);
            assert(s[i] == 1u8);
            assert(s.subrange(i + 1, i + 9) =~= ser_u64(v)) by {
                assert forall|k: int| 0 <= k < 8 implies s.subrange(i + 1, i + 9)[k] == ser_u64(
                    v,
                )[k] by {
                    assert(s[i + 1 + k] == s.subrange(i, i + 9)[1 + k]);
                    assert(ser_opt_u64(o)[1 + k] == ser_u64(v)[k]);
                }
            }
            lemma_parse_u64_ser(s, i + 1, v);
        },
    }
}

/// An embedded integer list parses back to itself.
proof fn lemma_parse_u64s_ser(s: Seq<u8>, i: int, d: Seq<u64>)
    requires
        0 <= i,
        i + ser_u64s(d).len() <= s.len(),
        s.subrange(i, i + ser_u64s(d).len()) == ser_u64s(d),
    ensures
        parse_u64s(s, i, d.len()) == Some((d, i + ser_u64s(d).len())),
        ser_u64s(d).len() == 8 * d.len(),
    decreases d.len(),
{
    lemma_ser_u64s_len(d);
    if d.len() > 0 {
        let rest = d.drop_first();
        lemma_ser_le_len(d[0] as nat, 8);
        lemma_ser_u64s_len(rest);
        assert(s.subrange(i, i + 8) =~= ser_u64(d[0])) by {
            assert forall|k: int| 0 <= k < 8 implies s.subrange(i, i + 8)[k] == ser_u64(
                d[0],
            )[k] by {
                assert(s[i + k] == s.subrange(i, i + ser_u64s(d).len())[k]);
                assert(ser_u64s(d)[k] == ser_u64(d[0])[k]);
            }
        }
        lemma_parse_u64_ser(s, i, d[0]);
        assert(s.subrange(i + 8, i + 8 + ser_u64s(rest).len()) =~= ser_u64s(rest)) by {
            assert forall|k: int| 0 <= k < ser_u64s(rest).len() implies s.subrange(
                i + 8,
                i + 8 + ser_u64s(rest).len(),
            )[k] == ser_u64s(rest)[k] by {
                assert(s[i + 8 + k] == s.subrange(i, i + ser_u64s(d).len())[8 + k]);
                assert(ser_u64s(d)[8 + k] == ser_u64s(rest)[k]);
            }
        }
        lemma_parse_u64s_ser(s, i + 8, rest);
        assert(seq![d[0]] + rest =~= d);
    }
}


/// A slice of an embedded record is embedded at its offset.
proof fn lemma_sub_extract(s: Seq<u8>, i: int, whole: Seq<u8>, off: int, len: int)
    requires
        0 <= i,
        i + whole.len() <= s.len(),
        s.subrange(i, i + whole.len()) == whole,
        0 <= off,
        0 <= len,
        off + len <= whole.len(),
    ensures
        s.subrange(i + off, i + off + len) =~= whole.subrange(off, off + len),
{
    assert forall|k: int| 0 <= k < len implies #[trigger] (s.subrange(i + off, i + off + len)[k])
        == whole.subrange(off, off + len)[k] by {
        assert(s[i + off + k] == s.subrange(i, i + whole.len())[off + k]);
    }
}

/// An embedded sample parses back to itself.
proof fn lemma_parse_sample_ser(s: Seq<u8>, i: int, v: SampleView)
    requires
        0 <= i,
        v.descriptor.len() <= u64::MAX,
        i + ser_sample(v).len() <= s.len(),
        s.subrange(i, i + ser_sample(v).len()) == ser_sample(v),
    ensures
        parse_sample(s, i) == Some((v, i + ser_sample(v).len())),
{
    let whole = ser_sample(v);
    let a = ser_u64(v.descriptor.len() as u64);
    let b = ser_u64s(v.descriptor);
    let c = ser_u64(v.confidence);
    let d = ser_u64(v.timestamp);
    let e = ser_u64(v.sample_id);
    lemma_ser_le_len(v.descriptor.len() as nat, 8);
    lemma_ser_u64s_len(v.descriptor);
    lemma_ser_le_len(v.confidence as nat, 8);
    lemma_ser_le_len(v.timestamp as nat, 8);
    lemma_ser_le_len(v.sample_id as nat, 8);
    let bl = b.len() as int;
    assert(whole.len() == 32 + bl);
    assert(whole.subrange(0, 8) =~= a);
    assert(whole.subrange(8, 8 + bl) =~= b);
    assert(whole.subrange(8 + bl, 16 + bl) =~= c);
    assert(whole.subrange(16 + bl, 24 + bl) =~= d);
    assert(whole.subrange(24 + bl, 32 + bl) =~= e);
    lemma_sub_extract(s, i, whole, 0, 8);
    lemma_parse_u64_ser(s, i, v.descriptor.len() as u64);
    lemma_sub_extract(s, i, whole, 8, bl);
    lemma_parse_u64s_ser(s, i + 8, v.descriptor);
    lemma_sub_extract(s, i, whole, 8 + bl, 8);
    lemma_parse_u64_ser(s, i + 8 + bl, v.confidence);
    lemma_sub_extract(s, i, whole, 16 + bl, 8);
    lemma_parse_u64_ser(s, i + 16 + bl, v.timestamp);
    lemma_sub_extract(s, i, whole, 24 + bl, 8);
    lemma_parse_u64_ser(s, i + 24 + bl, v.sample_id);
}

/// An embedded sample list parses back to itself.
proof fn lemma_parse_samples_ser(s: Seq<u8>, i: int, ss: Seq<SampleView>)
    requires
        0 <= i,
        encodable_samples(ss),
        i + ser_samples(ss).len() <= s.len(),
        s.subrange(i, i + ser_samples(ss).len()) == ser_samples(ss),
    ensures
        parse_samples(s, i, ss.len()) == Some((ss, i + ser_samples(ss).len())),
    decreases ss.len(),
{
    if ss.len() > 0 {
        let whole = ser_samples(ss);
        let first = ser_sample(ss[0]);
        let rest = ss.drop_first();
        let fl = first.len() as int;
        assert(whole.subrange(0, fl) =~= first);
        assert(whole.subrange(fl, whole.len() as int) =~= ser_samples(rest));
        lemma_sub_extract(s, i, whole, 0, fl);
        lemma_parse_sample_ser(s, i, ss[0]);
        lemma_sub_extract(s, i, whole, fl, ser_samples(rest).len() as int);
        assert(encodable_samples(rest)) by {
            assert forall|k: int| 0 <= k < rest.len() implies (#[trigger] rest[k]).descriptor.len()
                <= u64::MAX by {
                assert(rest[k] == ss[k + 1]);
            }
        }
        lemma_parse_samples_ser(s, i + fl, rest);
        assert(seq![ss[0]] + rest =~= ss);
    }
}

/// An embedded profile parses back to itself.
proof fn lemma_parse_profile_ser(s: Seq<u8>, i: int, p: ProfileView)
    requires
        0 <= i,
        encode_utf8(p.user_id).len() <= u64::MAX,
        p.samples.len() <= u64::MAX,
        encodable_samples(p.samples),
        i + ser_profile(p).len() <= s.len(),
        s.subrange(i, i + ser_profile(p).len()) == ser_profile(p),
    ensures
        parse_profile(s, i) == Some((p, i + ser_profile(p).len())),
{
    let whole = ser_profile(p);
    let a = ser_string(p.user_id);
    let b = ser_u64(p.samples.len() as u64);
    let c = ser_samples(p.samples);
    let d = ser_u64(p.enrollment_date);
    let e = ser_opt_u64(p.last_authentication);
    let f = ser_u64(p.authentication_count);
    lemma_ser_le_len(encode_utf8(p.user_id).len() as nat, 8);
    lemma_ser_le_len(p.samples.len() as nat, 8);
    lemma_ser_le_len(p.enrollment_date as nat, 8);
    lemma_ser_le_len(p.authentication_count as nat, 8);
    let al = a.len() as int;
    let cl = c.len() as int;
    let el = e.len() as int;
    assert(el == (if p.last_authentication is Some { 9int } else { 1int })) by {
        if p.last_authentication is Some {
            lemma_ser_le_len(p.last_authentication->0 as nat, 8);
        }
    }
    assert(whole.len() == al + 8 + cl + 8 + el + 8);
    assert(whole.subrange(0, al) =~= a);
    assert(whole.subrange(al, al + 8) =~= b);
    assert(whole.subrange(al + 8, al + 8 + cl) =~= c);
    assert(whole.subrange(al + 8 + cl, al + 16 + cl) =~= d);
    assert(whole.subrange(al + 16 + cl, al + 16 + cl + el) =~= e);
    assert(whole.subrange(al + 16 + cl + el, al + 24 + cl + el) =~= f);
    lemma_sub_extract(s, i, whole, 0, al);
    lemma_parse_string_ser(s, i, p.user_id);
    lemma_sub_extract(s, i, whole, al, 8);
    lemma_parse_u64_ser(s, i + al, p.samples.len() as u64);
    lemma_sub_extract(s, i, whole, al + 8, cl);
    lemma_parse_samples_ser(s, i + al + 8, p.samples);
    lemma_sub_extract(s, i, whole, al + 8 + cl, 8);
    lemma_parse_u64_ser(s, i + al + 8 + cl, p.enrollment_date);
    lemma_sub_extract(s, i, whole, al + 16 + cl, el);
    lemma_parse_opt_u64_ser(s, i + al + 16 + cl, p.last_authentication);
    lemma_sub_extract(s, i, whole, al + 16 + cl + el, 8);
    lemma_parse_u64_ser(s, i + al + 16 + cl + el, p.authentication_count);
}

/// An embedded profile list parses back to itself.
proof fn lemma_parse_profiles_ser(s: Seq<u8>, i: int, ps: Seq<ProfileView>)
    requires
        0 <= i,
        encodable_profiles(ps),
        i + ser_profiles(ps).len() <= s.len(),
        s.subrange(i, i + ser_profiles(ps).len()) == ser_profiles(ps),
    ensures
        parse_profiles(s, i, ps.len()) == Some((ps, i + ser_profiles(ps).len())),
    decreases ps.len(),
{
    if ps.len() > 0 {
        let whole = ser_profiles(ps);
        let first = ser_profile(ps[0]);
        let rest = ps.drop_first();
        let fl = first.len() as int;
        assert(whole.subrange(0, fl) =~= first);
        assert(whole.subrange(fl, whole.len() as int) =~= ser_profiles(rest));
        lemma_sub_extract(s, i, whole, 0, fl);
        lemma_parse_profile_ser(s, i, ps[0]);
        lemma_sub_extract(s, i, whole, fl, ser_profiles(rest).len() as int);
        assert(encodable_profiles(rest)) by {
            assert forall|k: int| 0 <= k < rest.len() implies {
                &&& encode_utf8((#[trigger] rest[k]).user_id).len() <= u64::MAX
                &&& rest[k].samples.len() <= u64::MAX
                &&& encodable_samples(rest[k].samples)
            } by {
                assert(rest[k] == ps[k + 1]);
                assert(encode_utf8(ps[k + 1].user_id).len() <= u64::MAX);
            }
        }
        lemma_parse_profiles_ser(s, i + fl, rest);
        assert(seq![ps[0]] + rest =~= ps);
    }
}

/// An embedded store parses back to itself.
proof fn lemma_parse_store_ser(s: Seq<u8>, i: int, v: StoreView)
    requires
        0 <= i,
        encodable(v),
        i + ser_store(v).len() <= s.len(),
        s.subrange(i, i + ser_store(v).len()) == ser_store(v),
    ensures
        parse_store(s, i) == Some((v, i + ser_store(v).len())),
{
    let whole = ser_store(v);
    let g = ser_profiles(v.users);
    lemma_ser_le_len(v.version as nat, 8);
    lemma_ser_le_len(v.accuracy_threshold as nat, 8);
    lemma_ser_le_len(v.min_samples_per_user as nat, 8);
    lemma_ser_le_len(v.max_samples_per_user as nat, 8);
    lemma_ser_le_len(v.next_sample_id as nat, 8);
    lemma_ser_le_len(v.users.len() as nat, 8);
    let gl = g.len() as int;
    assert(whole.len() == 48 + gl);
    assert(whole.subrange(0, 8) =~= ser_u64(v.version));
    assert(whole.subrange(8, 16) =~= ser_u64(v.accuracy_threshold));
    assert(whole.subrange(16, 24) =~= ser_u64(v.min_samples_per_user as u64));
    assert(whole.subrange(24, 32) =~= ser_u64(v.max_samples_per_user as u64));
    assert(whole.subrange(32, 40) =~= ser_u64(v.next_sample_id));
    assert(whole.subrange(40, 48) =~= ser_u64(v.users.len() as u64));
    assert(whole.subrange(48, 48 + gl) =~= g);
    lemma_sub_extract(s, i, whole, 0, 8);
    lemma_parse_u64_ser(s, i, v.version);
    lemma_sub_extract(s, i, whole, 8, 8);
    lemma_parse_u64_ser(s, i + 8, v.accuracy_threshold);
    lemma_sub_extract(s, i, whole, 16, 8);
    lemma_parse_u64_ser(s, i + 16, v.min_samples_per_user as u64);
    lemma_sub_extract(s, i, whole, 24, 8);
    lemma_parse_u64_ser(s, i + 24, v.max_samples_per_user as u64);
    lemma_sub_extract(s, i, whole, 32, 8);
    lemma_parse_u64_ser(s, i + 32, v.next_sample_id);
    lemma_sub_extract(s, i, whole, 40, 8);
    lemma_parse_u64_ser(s, i + 40, v.users.len() as u64);
    lemma_sub_extract(s, i, whole, 48, gl);
    lemma_parse_profiles_ser(s, i + 48, v.users);
}

/// Saving a store and loading the bytes back yields the same store, field for
/// field: parsing the serialized image returns exactly the original value,
/// consuming the whole image.
pub proof fn lemma_store_roundtrip(v: StoreView)
    requires
        encodable(v),
    ensures
        parse_store(ser_store(v), 0) == Some((v, ser_store(v).len() as int)),
{
    let s = ser_store(v);
    assert(s.subrange(0, s.len() as int) =~= s);
    lemma_parse_store_ser(s, 0, v);
}


// --- Executable encoding --------------------------------------------------

/// `pow256` is monotone.
proof fn lemma_pow256_mono(a: nat, b: nat)
    requires
        a <= b,
    ensures
        pow256(a) <= pow256(b),
    decreases b,
{
    if a < b {
        lemma_pow256_mono(a, (b - 1) as nat);
        lemma_pow256_pos((b - 1) as nat);
    }
}

/// Values read from bytes stay under `256 ^ n`.
proof fn lemma_le_val_bound(s: Seq<u8>, i: int, n: nat)
    requires
        0 <= i,
        i + n <= s.len(),
    ensures
        le_val(s, i, n) < pow256(n),
    decreases n,
{
    if n > 0 {
        lemma_le_val_bound(s, i + 1, (n - 1) as nat);
        assert(le_val(s, i, n) < 256 * pow256((n - 1) as nat)) by (nonlinear_arith)
            requires
                le_val(s, i, n) == s[i] as nat + 256 * le_val(s, i + 1, (n - 1) as nat),
                s[i] < 256,
                le_val(s, i + 1, (n - 1) as nat) < pow256((n - 1) as nat),
        ;
    }
}

/// Append the eight little-endian bytes of `v`.
fn push_u64(out: &mut Vec<u8>, v: u64)
    ensures
        final(out)@ == old(out)@ + ser_u64(v),
{
    let x0 = v;
    let b0 = (x0 % 256) as u8;
    let x1 = x0 / 256;
    let b1 = (x1 % 256) as u8;
    let x2 = x1 / 256;
    let b2 = (x2 % 256) as u8;
    let x3 = x2 / 256;
    let b3 = (x3 % 256) as u8;
    let x4 = x3 / 256;
    let b4 = (x4 % 256) as u8;
    let x5 = x4 / 256;
    let b5 = (x5 % 256) as u8;
    let x6 = x5 / 256;
    let b6 = (x6 % 256) as u8;
    let x7 = x6 / 256;
    let b7 = (x7 % 256) as u8;
    out.push(b0);
    out.push(b1);
    out.push(b2);
    out.push(b3);
    out.push(b4);
    out.push(b5);
    out.push(b6);
    out.push(b7);
    proof {
        assert(ser_le(x7 as nat / 256, 0) =~= Seq::<u8>::empty());
        assert(ser_le(x7 as nat, 1) =~= seq![b7]);
        assert(ser_le(x6 as nat, 2) =~= seq![b6] + ser_le(x7 as nat, 1));
        assert(ser_le(x5 as nat, 3) =~= seq![b5] + ser_le(x6 as nat, 2));
        assert(ser_le(x4 as nat, 4) =~= seq![b4] + ser_le(x5 as nat, 3));
        assert(ser_le(x3 as nat, 5) =~= seq![b3] + ser_le(x4 as nat, 4));
        assert(ser_le(x2 as nat, 6) =~= seq![b2] + ser_le(x3 as nat, 5));
        assert(ser_le(x1 as nat, 7) =~= seq![b1] + ser_le(x2 as nat, 6));
        assert(ser_le(x0 as nat, 8) =~= seq![b0] + ser_le(x1 as nat, 7));
        assert(final(out)@ =~= old(out)@ + ser_u64(v));
    }
}

/// Read the eight-byte integer at `pos`, if the bytes are there.
fn read_u64(s: &Vec<u8>, pos: usize) -> (r: Option<(u64, usize)>)
    ensures
        match r {
            Some(m) => parse_u64(s@, pos as int) == Some((m.0, m.1 as int)),
            None => parse_u64(s@, pos as int) is None,
        },
{
    let n = s.len();
    if n < 8 || pos > n - 8 {
        return None;
    }
    let mut val: u64 = 0;
    let mut k: usize = 8;
    proof {
        lemma_pow256_8();
    }
    while k > 0
        invariant
            pos + 8 <= s@.len(),
            s@.len() <= usize::MAX,
            k <= 8,
            val == le_val(s@, pos as int + k as int, (8 - k) as nat),
            val < pow256((8 - k) as nat),
            pow256(8) == 0x10000000000000000,
        decreases k,
    {
        k = k - 1;
        let b = s[pos + k];
        proof {
            lemma_pow256_mono((7 - k) as nat, 7);
            lemma_pow256_8();
            assert(pow256(7) * 256 == pow256(8)) by {
                reveal_with_fuel(pow256, 9);
            }
            assert((val as int) * 256 + 255 < 0x10000000000000000) by (nonlinear_arith)
                requires
                    0 <= val as int,
                    (val as int) < (pow256(7) as int),
                    (pow256(7) as int) * 256 == 0x10000000000000000,
            ;
            assert((val as int) * 256 + (b as int) < pow256((8 - k) as nat)) by (nonlinear_arith)
                requires
                    0 <= val as int,
                    (val as int) < (pow256((7 - k) as nat) as int),
                    b < 256,
                    pow256((8 - k) as nat) == 256 * pow256((7 - k) as nat),
            ;
        }
        val = val * 256 + b as u64;
    }
    proof {
        lemma_le_val_bound(s@, pos as int, 8);
    }
    Some((val, pos + 8))
}

/// Relies on `String::from_utf8`: it succeeds exactly on valid UTF-8 and
/// returns the string whose characters are the UTF-8 decoding of the bytes.
#[verifier::external_body]
fn string_from_utf8(bytes: Vec<u8>) -> (r: Option<String>)
    ensures
        valid_utf8(bytes@) ==> (r is Some && r->0@ == decode_utf8(bytes@)),
        !valid_utf8(bytes@) ==> r is None,
{
    match String::from_utf8(bytes) {
        Ok(s) => Some(s),
        Err(_) => None,
    }
}

/// Read the length-prefixed byte string at `pos`.
fn read_bytes(s: &Vec<u8>, pos: usize) -> (r: Option<(Vec<u8>, usize)>)
    ensures
        match r {
            Some(m) => parse_bytes(s@, pos as int) == Some((m.0@, m.1 as int)),
            None => parse_bytes(s@, pos as int) is None,
        },
{
    let (len, p1) = match read_u64(s, pos) {
        None => {
            return None;
        },
        Some(m) => m,
    };
    let n = s.len();
    if (len as u128) > (n - p1) as u128 {
        return None;
    }
    let count = len as usize;
    let mut out: Vec<u8> = Vec::new();
    let mut t: usize = 0;
    while t < count
        invariant
            p1 + count <= s@.len(),
            s@.len() <= usize::MAX,
            t <= count,
            out@ =~= s@.subrange(p1 as int, p1 as int + t as int),
        decreases count - t,
    {
        out.push(s[p1 + t]);
        proof {
            assert(out@ =~= s@.subrange(p1 as int, p1 as int + t as int + 1));
        }
        t = t + 1;
    }
    Some((out, p1 + count))
}

/// Read the length-prefixed UTF-8 string at `pos`.
fn read_string(s: &Vec<u8>, pos: usize) -> (r: Option<(String, usize)>)
    ensures
        match r {
            Some(m) => parse_string(s@, pos as int) == Some((m.0@, m.1 as int)),
            None => parse_string(s@, pos as int) is None,
        },
{
    let (b, p1) = match read_bytes(s, pos) {
        None => {
            return None;
        },
        Some(m) => m,
    };
    match string_from_utf8(b) {
        None => None,
        Some(text) => Some((text, p1)),
    }
}

/// Read the tagged optional integer at `pos`.
fn read_opt_u64(s: &Vec<u8>, pos: usize) -> (r: Option<(Option<u64>, usize)>)
    ensures
        match r {
            Some(m) => parse_opt_u64(s@, pos as int) == Some((m.0, m.1 as int)),
            None => parse_opt_u64(s@, pos as int) is None,
        },
{
    if pos >= s.len() {
        return None;
    }
    let tag = s[pos];
    if tag == 0 {
        Some((None, pos + 1))
    } else if tag == 1 {
        match read_u64(s, pos + 1) {
            None => None,
            Some((v, p1)) => Some((Some(v), p1)),
        }
    } else {
        None
    }
}


/// Appending one integer extends an integer-list record at its end.
proof fn lemma_ser_u64s_snoc(d: Seq<u64>, x: u64)
    ensures
        ser_u64s(d.push(x)) == ser_u64s(d) + ser_u64(x),
    decreases d.len(),
{
    if d.len() == 0 {
        assert(d.push(x)[0] == x);
        assert(d.push(x).drop_first() =~= Seq::<u64>::empty());
        assert(ser_u64s(Seq::<u64>::empty()) =~= Seq::<u8>::empty());
        assert(ser_u64s(d.push(x)) =~= ser_u64s(d) + ser_u64(x));
    } else {
        assert(d.push(x).drop_first() =~= d.drop_first().push(x));
        lemma_ser_u64s_snoc(d.drop_first(), x);
        assert(d.push(x)[0] == d[0]);
        assert(ser_u64s(d.push(x)) =~= ser_u64s(d) + ser_u64(x));
    }
}

/// Appending one sample extends a sample-list record at its end.
proof fn lemma_ser_samples_snoc(ss: Seq<SampleView>, x: SampleView)
    ensures
        ser_samples(ss.push(x)) == ser_samples(ss) + ser_sample(x),
    decreases ss.len(),
{
    if ss.len() == 0 {
        assert(ss.push(x)[0] == x);
        assert(ss.push(x).drop_first() =~= Seq::<SampleView>::empty());
        assert(ser_samples(Seq::<SampleView>::empty()) =~= Seq::<u8>::empty());
        assert(ser_samples(ss.push(x)) =~= ser_samples(ss) + ser_sample(x));
    } else {
        assert(ss.push(x).drop_first() =~= ss.drop_first().push(x));
        lemma_ser_samples_snoc(ss.drop_first(), x);
        assert(ss.push(x)[0] == ss[0]);
        assert(ser_samples(ss.push(x)) =~= ser_samples(ss) + ser_sample(x));
    }
}

/// Appending one profile extends a profile-list record at its end.
proof fn lemma_ser_profiles_snoc(ps: Seq<ProfileView>, x: ProfileView)
    ensures
        ser_profiles(ps.push(x)) == ser_profiles(ps) + ser_profile(x),
    decreases ps.len(),
{
    if ps.len() == 0 {
        assert(ps.push(x)[0] == x);
        assert(ps.push(x).drop_first() =~= Seq::<ProfileView>::empty());
        assert(ser_profiles(Seq::<ProfileView>::empty()) =~= Seq::<u8>::empty());
        assert(ser_profiles(ps.push(x)) =~= ser_profiles(ps) + ser_profile(x));
    } else {
        assert(ps.push(x).drop_first() =~= ps.drop_first().push(x));
        lemma_ser_profiles_snoc(ps.drop_first(), x);
        assert(ps.push(x)[0] == ps[0]);
        assert(ser_profiles(ps.push(x)) =~= ser_profiles(ps) + ser_profile(x));
    }
}

/// Append one sample's record.
fn encode_sample(out: &mut Vec<u8>, f: &crate::store::StoredFace)
    ensures
        final(out)@ == old(out)@ + ser_sample(f@),
        f@.descriptor.len() <= u64::MAX,
{
    let ghost base = out@;
    let d = &f.descriptor;
    let dn = d.len();
    push_u64(out, dn as u64);
    let mut k: usize = 0;
    while k < dn
        invariant
            dn == d@.len(),
            k <= dn,
            out@ =~= base + ser_u64(dn as u64) + ser_u64s(d@.take(k as int)),
        decreases dn - k,
    {
        push_u64(out, d[k]);
        proof {
            lemma_ser_u64s_snoc(d@.take(k as int), d@[k as int]);
            assert(d@.take(k as int + 1) =~= d@.take(k as int).push(d@[k as int]));
            assert(out@ =~= base + ser_u64(dn as u64) + ser_u64s(d@.take(k as int + 1)));
        }
        k = k + 1;
    }
    proof {
        assert(d@.take(dn as int) =~= d@);
    }
    push_u64(out, f.confidence);
    push_u64(out, f.timestamp);
    push_u64(out, f.sample_id);
    proof {
        assert(final(out)@ =~= base + ser_sample(f@));
    }
}

/// Append one profile's record.
fn encode_profile(out: &mut Vec<u8>, p: &crate::store::UserProfile)
    ensures
        final(out)@ == old(out)@ + ser_profile(p@),
        encode_utf8(p@.user_id).len() <= u64::MAX,
        p@.samples.len() <= u64::MAX,
        encodable_samples(p@.samples),
{
    let ghost base = out@;
    let mut idb = p.user_id.as_str().as_bytes_vec();
    let idn = idb.len();
    push_u64(out, idn as u64);
    out.append(&mut idb);
    proof {
        assert(out@ =~= base + ser_string(p@.user_id));
    }
    let sn = p.face_samples.len();
    push_u64(out, sn as u64);
    let ghost base2 = out@;
    let mut k: usize = 0;
    while k < sn
        invariant
            sn == p.face_samples@.len(),
            k <= sn,
            out@ =~= base2 + ser_samples(crate::store::samples_view(p.face_samples@).take(
                k as int,
            )),
            forall|j: int|
                0 <= j < k ==> (#[trigger] crate::store::samples_view(
                    p.face_samples@,
                )[j]).descriptor.len() <= u64::MAX,
        decreases sn - k,
    {
        let ghost sv = crate::store::samples_view(p.face_samples@);
        encode_sample(out, &p.face_samples[k]);
        proof {
            lemma_ser_samples_snoc(sv.take(k as int), sv[k as int]);
            assert(sv.take(k as int + 1) =~= sv.take(k as int).push(sv[k as int]));
            assert(out@ =~= base2 + ser_samples(sv.take(k as int + 1)));
        }
        k = k + 1;
    }
    proof {
        assert(crate::store::samples_view(p.face_samples@).take(sn as int)
            =~= crate::store::samples_view(p.face_samples@));
    }
    push_u64(out, p.enrollment_date);
    match p.last_authentication {
        None => {
            out.push(0u8);
        },
        Some(ts) => {
            out.push(1u8);
            push_u64(out, ts);
        },
    }
    push_u64(out, p.authentication_count);
    proof {
        assert(final(out)@ =~= base + ser_profile(p@));
    }
}

impl FaceDatabase {
    /// Serialize the whole store into a flat byte record.
    ///
    /// Feeding the result to [`FaceDatabase::decode`] yields this store back
    /// field for field (see [`lemma_store_roundtrip`]).
    pub fn encode(&self) -> (r: Vec<u8>)
        ensures
            r@ == ser_store(self@),
            encodable(self@),
    {
        let mut out: Vec<u8> = Vec::new();
        push_u64(&mut out, self.version);
        push_u64(&mut out, self.accuracy_threshold);
        push_u64(&mut out, self.min_samples_per_user as u64);
        push_u64(&mut out, self.max_samples_per_user as u64);
        push_u64(&mut out, self.next_sample_id);
        let un = self.users.len();
        push_u64(&mut out, un as u64);
        let ghost base = out@;
        let mut k: usize = 0;
        while k < un
            invariant
                un == self.users@.len(),
                k <= un,
                out@ =~= base + ser_profiles(self@.users.take(k as int)),
                forall|j: int|
                    0 <= j < k ==> {
                        &&& encode_utf8((#[trigger] self@.users[j]).user_id).len() <= u64::MAX
                        &&& self@.users[j].samples.len() <= u64::MAX
                        &&& encodable_samples(self@.users[j].samples)
                    },
            decreases un - k,
        {
            encode_profile(&mut out, &self.users[k]);
            proof {
                lemma_ser_profiles_snoc(self@.users.take(k as int), self@.users[k as int]);
                assert(self@.users.take(k as int + 1) =~= self@.users.take(k as int).push(
                    self@.users[k as int],
                ));
                assert(out@ =~= base + ser_profiles(self@.users.take(k as int + 1)));
            }
            k = k + 1;
        }
        proof {
            assert(self@.users.take(un as int) =~= self@.users);
            assert(out@ =~= ser_store(self@));
        }
        out
    }
}


/// Read the sample record at `pos`.
fn read_sample(s: &Vec<u8>, pos: usize) -> (r: Option<(crate::store::StoredFace, usize)>)
    ensures
        match r {
            Some(m) => parse_sample(s@, pos as int) == Some((m.0@, m.1 as int)),
            None => parse_sample(s@, pos as int) is None,
        },
{
    let (dlen, p0) = match read_u64(s, pos) {
        None => {
            return None;
        },
        Some(m) => m,
    };
    let mut descriptor: Vec<u64> = Vec::new();
    let mut cur = p0;
    let mut k: u64 = 0;
    proof {
        match parse_u64s(s@, p0 as int, dlen as nat) {
            None => {},
            Some((rest, end)) => {
                assert(Seq::<u64>::empty() + rest =~= rest);
            },
        }
    }
    while k < dlen
        invariant
            k <= dlen,
            parse_u64(s@, pos as int) == Some((dlen, p0 as int)),
            ({
                let tail = parse_u64s(s@, cur as int, (dlen - k) as nat);
                let whole = parse_u64s(s@, p0 as int, dlen as nat);
                match tail {
                    None => whole is None,
                    Some((rest, end)) => whole == Some((descriptor@ + rest, end)),
                }
            }),
        decreases dlen - k,
    {
        let (v, np) = match read_u64(s, cur) {
            None => {
                proof {
                    assert(parse_u64s(s@, cur as int, (dlen - k) as nat) is None);
                    assert(parse_u64s(s@, p0 as int, dlen as nat) is None);
                    assert(parse_u64(s@, pos as int) == Some((dlen, p0 as int)));
                    assert(parse_sample(s@, pos as int) is None);
                }
                return None;
            },
            Some(m) => m,
        };
        descriptor.push(v);
        proof {
            let tail2 = parse_u64s(s@, np as int, (dlen - k - 1) as nat);
            match tail2 {
                None => {},
                Some((rest2, end2)) => {
                    assert(descriptor@ + rest2 =~= descriptor@.drop_last() + (seq![v] + rest2));
                },
            }
        }
        cur = np;
        k = k + 1;
    }
    proof {
        assert(parse_u64s(s@, cur as int, 0) == Some((Seq::<u64>::empty(), cur as int)));
        assert(descriptor@ + Seq::<u64>::empty() =~= descriptor@);
    }
    let (confidence, p1) = match read_u64(s, cur) {
        None => {
            return None;
        },
        Some(m) => m,
    };
    let (timestamp, p2) = match read_u64(s, p1) {
        None => {
            return None;
        },
        Some(m) => m,
    };
    let (sample_id, p3) = match read_u64(s, p2) {
        None => {
            return None;
        },
        Some(m) => m,
    };
    Some((crate::store::StoredFace { descriptor, confidence, timestamp, sample_id }, p3))
}

/// Read the profile record at `pos`.
fn read_profile(s: &Vec<u8>, pos: usize) -> (r: Option<(crate::store::UserProfile, usize)>)
    ensures
        match r {
            Some(m) => parse_profile(s@, pos as int) == Some((m.0@, m.1 as int)),
            None => parse_profile(s@, pos as int) is None,
        },
{
    let (user_id, p0) = match read_string(s, pos) {
        None => {
            return None;
        },
        Some(m) => m,
    };
    let (slen, p1) = match read_u64(s, p0) {
        None => {
            return None;
        },
        Some(m) => m,
    };
    let mut face_samples: Vec<crate::store::StoredFace> = Vec::new();
    let mut cur = p1;
    let mut k: u64 = 0;
    proof {
        assert(crate::store::samples_view(face_samples@) =~= Seq::<SampleView>::empty());
        match parse_samples(s@, p1 as int, slen as nat) {
            None => {},
            Some((rest, end)) => {
                assert(Seq::<SampleView>::empty() + rest =~= rest);
            },
        }
    }
    while k < slen
        invariant
            k <= slen,
            parse_string(s@, pos as int) == Some((user_id@, p0 as int)),
            parse_u64(s@, p0 as int) == Some((slen, p1 as int)),
            ({
                let tail = parse_samples(s@, cur as int, (slen - k) as nat);
                let whole = parse_samples(s@, p1 as int, slen as nat);
                match tail {
                    None => whole is None,
                    Some((rest, end)) => whole == Some(
                        (crate::store::samples_view(face_samples@) + rest, end),
                    ),
                }
            }),
        decreases slen - k,
    {
        let (f, np) = match read_sample(s, cur) {
            None => {
                proof {
                    assert(parse_samples(s@, cur as int, (slen - k) as nat) is None);
                    assert(parse_samples(s@, p1 as int, slen as nat) is None);
                    assert(parse_profile(s@, pos as int) is None);
                }
                return None;
            },
            Some(m) => m,
        };
        let ghost before = face_samples@;
        face_samples.push(f);
        proof {
            assert(crate::store::samples_view(face_samples@) =~= crate::store::samples_view(
                before,
            ).push(f@));
            let tail2 = parse_samples(s@, np as int, (slen - k - 1) as nat);
            match tail2 {
                None => {},
                Some((rest2, end2)) => {
                    assert(crate::store::samples_view(face_samples@) + rest2
                        =~= crate::store::samples_view(before) + (seq![f@] + rest2));
                },
            }
        }
        cur = np;
        k = k + 1;
    }
    proof {
        assert(parse_samples(s@, cur as int, 0) == Some((Seq::<SampleView>::empty(), cur as int)));
        assert(crate::store::samples_view(face_samples@) + Seq::<SampleView>::empty()
            =~= crate::store::samples_view(face_samples@));
    }
    let (enrollment_date, p2) = match read_u64(s, cur) {
        None => {
            return None;
        },
        Some(m) => m,
    };
    let (last_authentication, p3) = match read_opt_u64(s, p2) {
        None => {
            return None;
        },
        Some(m) => m,
    };
    let (authentication_count, p4) = match read_u64(s, p3) {
        None => {
            return None;
        },
        Some(m) => m,
    };
    Some(
        (
            crate::store::UserProfile {
                user_id,
                face_samples,
                enrollment_date,
                last_authentication,
                authentication_count,
            },
            p4,
        ),
    )
}

impl FaceDatabase {
    /// Rebuild a store from a byte record produced by
    /// [`FaceDatabase::encode`].
    ///
    /// Succeeds exactly when the bytes parse as one complete store record
    /// with nothing left over; anything else is `MalformedStore`.
    pub fn decode(bytes: &Vec<u8>) -> (r: Result<FaceDatabase, FaceError>)
        ensures
            match r {
                Ok(db) => parse_store(bytes@, 0) == Some((db@, bytes@.len() as int)),
                Err(e) => {
                    &&& e == FaceError::MalformedStore
                    &&& match parse_store(bytes@, 0) {
                        Some((v, end)) => end != bytes@.len(),
                        None => true,
                    }
                },
            },
    {
        let (version, p0) = match read_u64(bytes, 0) {
            None => {
                return Err(FaceError::MalformedStore);
            },
            Some(m) => m,
        };
        let (accuracy_threshold, p1) = match read_u64(bytes, p0) {
            None => {
                return Err(FaceError::MalformedStore);
            },
            Some(m) => m,
        };
        let (min_s, p2) = match read_u64(bytes, p1) {
            None => {
                return Err(FaceError::MalformedStore);
            },
            Some(m) => m,
        };
        let (max_s, p3) = match read_u64(bytes, p2) {
            None => {
                return Err(FaceError::MalformedStore);
            },
            Some(m) => m,
        };
        let (next_sample_id, p4) = match read_u64(bytes, p3) {
            None => {
                return Err(FaceError::MalformedStore);
            },
            Some(m) => m,
        };
        let (ulen, p5) = match read_u64(bytes, p4) {
            None => {
                return Err(FaceError::MalformedStore);
            },
            Some(m) => m,
        };
        let mut users: Vec<crate::store::UserProfile> = Vec::new();
        let mut cur = p5;
        let mut k: u64 = 0;
        proof {
            assert(crate::store::profiles_view(users@) =~= Seq::<ProfileView>::empty());
            match parse_profiles(bytes@, p5 as int, ulen as nat) {
                None => {},
                Some((rest, end)) => {
                    assert(Seq::<ProfileView>::empty() + rest =~= rest);
                },
            }
        }
        while k < ulen
            invariant
                k <= ulen,
                parse_u64(bytes@, 0) == Some((version, p0 as int)),
                parse_u64(bytes@, p0 as int) == Some((accuracy_threshold, p1 as int)),
                parse_u64(bytes@, p1 as int) == Some((min_s, p2 as int)),
                parse_u64(bytes@, p2 as int) == Some((max_s, p3 as int)),
                parse_u64(bytes@, p3 as int) == Some((next_sample_id, p4 as int)),
                parse_u64(bytes@, p4 as int) == Some((ulen, p5 as int)),
                ({
                    let tail = parse_profiles(bytes@, cur as int, (ulen - k) as nat);
                    let whole = parse_profiles(bytes@, p5 as int, ulen as nat);
                    match tail {
                        None => whole is None,
                        Some((rest, end)) => whole == Some(
                            (crate::store::profiles_view(users@) + rest, end),
                        ),
                    }
                }),
            decreases ulen - k,
        {
            let (p, np) = match read_profile(bytes, cur) {
                None => {
                    proof {
                        assert(parse_profiles(bytes@, cur as int, (ulen - k) as nat) is None);
                        assert(parse_profiles(bytes@, p5 as int, ulen as nat) is None);
                        assert(parse_store(bytes@, 0) is None);
                    }
                    return Err(FaceError::MalformedStore);
                },
                Some(m) => m,
            };
            let ghost before = users@;
            users.push(p);
            proof {
                assert(crate::store::profiles_view(users@) =~= crate::store::profiles_view(
                    before,
                ).push(p@));
                let tail2 = parse_profiles(bytes@, np as int, (ulen - k - 1) as nat);
                match tail2 {
                    None => {},
                    Some((rest2, end2)) => {
                        assert(crate::store::profiles_view(users@) + rest2
                            =~= crate::store::profiles_view(before) + (seq![p@] + rest2));
                    },
                }
            }
            cur = np;
            k = k + 1;
        }
        proof {
            assert(parse_profiles(bytes@, cur as int, 0) == Some(
                (Seq::<ProfileView>::empty(), cur as int),
            ));
            assert(crate::store::profiles_view(users@) + Seq::<ProfileView>::empty()
                =~= crate::store::profiles_view(users@));
        }
        if min_s > usize::MAX as u64 || max_s > usize::MAX as u64 {
            return Err(FaceError::MalformedStore);
        }
        if cur != bytes.len() {
            return Err(FaceError::MalformedStore);
        }
        Ok(
            FaceDatabase {
                users,
                version,
                accuracy_threshold,
                min_samples_per_user: min_s as usize,
                max_samples_per_user: max_s as usize,
                next_sample_id,
            },
        )
    }
}

} // verus!
