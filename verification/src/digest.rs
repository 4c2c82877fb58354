//! The fingerprint of a byte content: its MD5 digest written as
//! lowercase hexadecimal. The digest itself comes from the `md5` crate;
//! the streaming computation that folds a large content into the digest
//! state chunk by chunk is verified here.

use vstd::prelude::*;
use vstd::slice::slice_subrange;

verus! {

/// The fingerprint of a byte content: its MD5 digest as 32 lowercase
/// hexadecimal digits. What the digits are on given bytes only the
/// `md5` crate says; the fingerprint depends on the bytes alone.
pub uninterp spec fn md5_digest(data: Seq<u8>) -> Seq<u8>;

/// The bytes a digest state has consumed so far, in order.
pub uninterp spec fn md5_consumed(ctx: md5::Context) -> Seq<u8>;

#[verifier::external_type_specification]
#[verifier::external_body]
pub struct ExMd5Context(md5::Context);

/// Relies on md5::Context::new: a fresh digest state has consumed nothing.
#[verifier::external_body]
fn md5_context_new() -> (c: md5::Context)
    ensures
        md5_consumed(c) == Seq::<u8>::empty(),
{
    md5::Context::new()
}

/// Relies on md5::Context::consume: the chunk is appended, in order, to
/// what the digest state has consumed.
#[verifier::external_body]
fn md5_context_consume(c: &mut md5::Context, chunk: &[u8])
    ensures
        md5_consumed(*final(c)) == md5_consumed(*old(c)) + chunk@,
{
    c.consume(chunk);
}

/// Relies on md5::Context::compute and the `LowerHex` form of its
/// `Digest`: the result is the 16-byte MD5 digest of everything consumed,
/// written as 32 lowercase hexadecimal digits.
#[verifier::external_body]
fn md5_context_finish(c: md5::Context) -> (r: Vec<u8>)
    ensures
        r@ == md5_digest(md5_consumed(c)),
        r@.len() == 32,
{
    format!("{:x}", c.compute()).into_bytes()
}

/// How many bytes are folded into the digest state at a time.
pub const CHUNK_LEN: usize = 10 * 1024 * 1024;

/// Compute a content's fingerprint, streaming the bytes through the
/// digest state in chunks of at most `CHUNK_LEN` bytes, in file order.
pub fn fingerprint_of(data: &[u8]) -> (r: Vec<u8>)
    ensures
        r@ == md5_digest(data@),
        r@.len() == 32,
{
    let mut ctx = md5_context_new();
    let len = data.len();
    let mut offset: usize = 0;
    proof {
        assert(data@.subrange(0, 0) =~= Seq::<u8>::empty());
    }
    while offset < len
        invariant
            0 <= offset <= len,
            len == data@.len(),
            md5_consumed(ctx) == data@.subrange(0, offset as int),
        decreases len - offset,
    {
        let end = if len - offset > CHUNK_LEN {
            offset + CHUNK_LEN
        } else {
            len
        };
        let chunk = slice_subrange(data, offset, end);
        md5_context_consume(&mut ctx, chunk);
        proof {
            assert(data@.subrange(0, offset as int) + data@.subrange(offset as int, end as int)
                =~= data@.subrange(0, end as int));
        }
        offset = end;
    }
    proof {
        assert(data@.subrange(0, len as int) =~= data@);
    }
    md5_context_finish(ctx)
}

} // verus!
