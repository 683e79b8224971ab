//! Pixels as bytes: three bytes per RGB8 pixel, in order.
use vstd::arithmetic::div_mod::lemma_fundamental_div_mod_converse;
use vstd::prelude::*;

verus! {

/// The bytes of `pixels`, three per pixel, in order.
pub open spec fn bytes_of(pixels: Seq<[u8; 3]>) -> Seq<u8> {
    Seq::new(3 * pixels.len(), |k: int| pixels[k / 3][k % 3])
}

/// `samples` with every fourth byte (the alpha of each RGBA pixel) left out.
pub open spec fn without_alpha(samples: Seq<u8>) -> Seq<u8> {
    Seq::new(
        (samples.len() - samples.len() / 4) as nat,
        |j: int| samples[4 * (j / 3) + j % 3],
    )
}

/// Relies on bytemuck::try_cast_slice: `[u8; 3]` has size 3 and alignment 1, so
/// the cast succeeds and gives the same bytes, three per pixel, in order.
#[verifier::external_body]
pub(crate) fn rgb8_to_bytes(rgb8: &[[u8; 3]]) -> (r: &[u8])
    ensures
        r@ == bytes_of(rgb8@),
{
    match bytemuck::try_cast_slice::<[u8; 3], u8>(rgb8) {
        Ok(bytes) => bytes,
        Err(_) => &[],
    }
}

/// Relies on bytemuck::try_cast_slice: bytes whose count is a multiple of 3 cast
/// to pixels of three bytes each, in order (alignment 1, no slop).
#[verifier::external_body]
pub(crate) fn bytes_to_rgb8(bytes: &[u8]) -> (r: Vec<[u8; 3]>)
    requires
        bytes@.len() % 3 == 0,
    ensures
        bytes_of(r@) == bytes@,
{
    match bytemuck::try_cast_slice::<u8, [u8; 3]>(bytes) {
        Ok(pixels) => pixels.to_vec(),
        Err(_) => Vec::new(),
    }
}

/// Pixels are fixed by their bytes.
pub proof fn lemma_bytes_determine_pixels(a: Seq<[u8; 3]>, b: Seq<[u8; 3]>)
    requires
        bytes_of(a) == bytes_of(b),
    ensures
        a == b,
{
    assert(bytes_of(a).len() == 3 * a.len());
    assert(bytes_of(b).len() == 3 * b.len());
    assert(a.len() == b.len());
    assert forall|i: int| 0 <= i < a.len() implies a[i] == b[i] by {
        assert forall|c: int| 0 <= c < 3 implies a[i][c] == b[i][c] by {
            let k = 3 * i + c;
            lemma_fundamental_div_mod_converse(k, 3, i, c);
            assert(0 <= k < 3 * a.len());
            assert(bytes_of(a)[k] == a[k / 3][k % 3]);
            assert(bytes_of(b)[k] == b[k / 3][k % 3]);
        }
        assert(a[i] =~= b[i]);
    }
    assert(a =~= b);
}

/// RGBA samples with the alpha of each pixel left out.
pub fn strip_alpha(samples: &[u8]) -> (r: Vec<u8>)
    ensures
        r@ == without_alpha(samples@),
{
    let len = samples.len();
    let mut r: Vec<u8> = Vec::new();
    let mut k: usize = 0;
    while k < len
        invariant
            len == samples@.len(),
            k <= len,
            r@.len() == k - k / 4,
            forall|j: int| 0 <= j < r@.len() ==> #[trigger] r@[j] == samples@[4 * (j / 3) + j % 3],
        decreases len - k,
    {
        proof {
            lemma_fundamental_div_mod_converse(k as int, 4, (k / 4) as int, (k % 4) as int);
            lemma_fundamental_div_mod_converse(
                (k + 1) as int,
                4,
                if k % 4 == 3 { (k / 4 + 1) as int } else { (k / 4) as int },
                if k % 4 == 3 { 0 } else { (k % 4 + 1) as int },
            );
        }
        if k % 4 != 3 {
            proof {
                let j = (k - k / 4) as int;
                lemma_fundamental_div_mod_converse(j, 3, (k / 4) as int, (k % 4) as int);
            }
            r.push(samples[k]);
        }
        k = k + 1;
    }
    assert(r@ =~= without_alpha(samples@));
    r
}

/// A fresh vector holding the same pixels.
pub fn copy_pixels(v: &Vec<[u8; 3]>) -> (r: Vec<[u8; 3]>)
    ensures
        r@ == v@,
{
    let mut r: Vec<[u8; 3]> = Vec::with_capacity(v.len());
    let mut i: usize = 0;
    while i < v.len()
        invariant
            i <= v@.len(),
            r@ == v@.subrange(0, i as int),
        decreases v@.len() - i,
    {
        r.push(v[i]);
        i = i + 1;
        assert(r@ =~= v@.subrange(0, i as int));
    }
    assert(r@ =~= v@);
    r
}

} // verus!
