use vstd::prelude::*;

use crate::wad::WadError;

verus! {

/// Width in bytes of every on-disk name field.
pub const NAME_FIELD_BYTES: usize = 16;

/// What the legacy single-byte code page encoder returns for `s`: the
/// encoded bytes and whether any character was unmappable; a fixed
/// function of `s`.
pub uninterp spec fn cp1251_enc(s: Seq<char>) -> (Seq<u8>, bool);

/// What the legacy code page decoder returns for `b`: a fixed function
/// of `b`.
pub uninterp spec fn cp1251_dec(b: Seq<u8>) -> Seq<char>;

/// Relies on encoding_rs's `Encoding::encode` on windows-1251: the result is
/// a function of the string alone, with unmappable characters replaced and
/// reported through the returned flag. The code page maps each mapped
/// character to one byte and back, and maps ASCII (so NUL, and only NUL) to
/// byte zero; hence a cleanly encoded string decodes back to itself, and one
/// without NUL characters encodes without zero bytes.
#[verifier::external_body]
fn cp1251_encode(s: &str) -> (r: (Vec<u8>, bool))
    ensures
        r.0@ == cp1251_enc(s@).0,
        r.1 == cp1251_enc(s@).1,
        !r.1 ==> cp1251_dec(r.0@) == s@,
        !r.1 && !s@.contains('\0') ==> !r.0@.contains(0u8),
{
    let (bytes, _, had_errors) = encoding_rs::WINDOWS_1251.encode(s);
    (bytes.into_owned(), had_errors)
}

/// Relies on encoding_rs's `Encoding::decode_without_bom_handling` on
/// windows-1251: every byte decodes through the code page to exactly one
/// character, a function of the bytes alone.
#[verifier::external_body]
fn cp1251_decode(b: &[u8]) -> (r: String)
    ensures
        r@ == cp1251_dec(b@),
{
    let (text, _) = encoding_rs::WINDOWS_1251.decode_without_bom_handling(b);
    text.into_owned()
}

/// `b` with every trailing NUL byte removed.
pub open spec fn strip_nuls(b: Seq<u8>) -> Seq<u8>
    decreases b.len(),
{
    if b.len() > 0 && b.last() == 0u8 {
        strip_nuls(b.drop_last())
    } else {
        b
    }
}

/// The legacy-encoded form of `s`, NUL-padded to the name field width.
/// Meaningful whenever `name_fits(s)` holds.
pub open spec fn name16(s: Seq<char>) -> Seq<u8> {
    cp1251_enc(s).0 + Seq::new((NAME_FIELD_BYTES - cp1251_enc(s).0.len()) as nat, |i: int| 0u8)
}

/// A name fits when its legacy-encoded form is at most the field width.
pub open spec fn name_fits(s: Seq<char>) -> bool {
    cp1251_enc(s).0.len() <= NAME_FIELD_BYTES
}

/// A clean name encodes without unmappable characters and holds no NUL;
/// such a name survives an encode/decode round trip unchanged.
pub open spec fn name_clean(s: Seq<char>) -> bool {
    !cp1251_enc(s).1 && !s.contains('\0')
}

/// The string that an on-disk name field stands for: the field with its
/// trailing NUL padding stripped, decoded through the code page.
pub open spec fn field_name(b: Seq<u8>) -> Seq<char> {
    cp1251_dec(strip_nuls(b))
}

/// Stripping trailing NULs from a NUL-free sequence padded with NULs
/// gives the sequence back.
proof fn lemma_strip_pad(b: Seq<u8>, k: nat)
    requires
        !b.contains(0u8),
    ensures
        strip_nuls(b + Seq::new(k, |i: int| 0u8)) == b,
    decreases k,
{
    if k == 0 {
        assert(b + Seq::new(0, |i: int| 0u8) =~= b);
        if b.len() > 0 {
            assert(b.last() != 0u8);
        }
    } else {
        let padded = b + Seq::new(k, |i: int| 0u8);
        assert(padded.last() == 0u8);
        assert(padded.drop_last() =~= b + Seq::new((k - 1) as nat, |i: int| 0u8));
        lemma_strip_pad(b, (k - 1) as nat);
    }
}

/// Encode a name through the legacy code page and NUL-pad it to the fixed
/// field width; an encoded form wider than the field is a hard error, and
/// nothing is truncated.
pub fn encode_name(s: &str) -> (r: Result<Vec<u8>, WadError>)
    ensures
        name_fits(s@) <==> r is Ok,
        r matches Ok(v) ==> v@ == name16(s@) && v@.len() == NAME_FIELD_BYTES,
        !name_fits(s@) ==> r == Err::<Vec<u8>, WadError>(WadError::StructNameTooLong),
        r is Ok && name_clean(s@) ==> field_name(name16(s@)) == s@,
{
    let (mut bytes, _had_errors) = cp1251_encode(s);
    if bytes.len() > NAME_FIELD_BYTES {
        return Err(WadError::StructNameTooLong);
    }
    let ghost enc = cp1251_enc(s@).0;
    while bytes.len() < NAME_FIELD_BYTES
        invariant
            enc.len() <= bytes@.len() <= NAME_FIELD_BYTES,
            bytes@ == enc + Seq::new((bytes@.len() - enc.len()) as nat, |i: int| 0u8),
        decreases NAME_FIELD_BYTES - bytes.len(),
    {
        bytes.push(0u8);
        proof {
            assert(bytes@ =~= enc + Seq::new((bytes@.len() - enc.len()) as nat, |i: int| 0u8));
        }
    }
    proof {
        assert(bytes@ == name16(s@));
        if name_clean(s@) {
            lemma_strip_pad(enc, (NAME_FIELD_BYTES - enc.len()) as nat);
        }
    }
    Ok(bytes)
}

/// Decode an on-disk name field: strip the trailing NUL padding, then
/// decode what is left through the legacy code page.
pub fn decode_name(b: &[u8]) -> (r: String)
    ensures
        r@ == field_name(b@),
{
    let mut end = b.len();
    proof {
        assert(b@.subrange(0, b@.len() as int) =~= b@);
    }
    while end > 0 && *vstd::slice::slice_index_get(b, end - 1) == 0u8
        invariant
            end <= b@.len(),
            strip_nuls(b@.subrange(0, end as int)) == strip_nuls(b@),
        decreases end,
    {
        proof {
            let pre = b@.subrange(0, end as int);
            assert(pre.last() == 0u8);
            assert(pre.drop_last() =~= b@.subrange(0, end - 1));
        }
        end = end - 1;
    }
    proof {
        assert(b@.subrange(0, b@.len() as int) =~= b@);
        let kept = b@.subrange(0, end as int);
        if end > 0 {
            assert(kept.last() == b@[end - 1]);
        }
        assert(strip_nuls(kept) == kept);
    }
    cp1251_decode(vstd::slice::slice_subrange(b, 0, end))
}

} // verus!
