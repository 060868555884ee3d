//! What the embedders decide: which inputs they refuse, the endpoint they
//! call, which responses they reject, and the deterministic test embedders.
//!
//! Embedding vectors are floats; the deterministic embedders here produce
//! each component as an integer level `q` in `0..=255`, the component being
//! `q / 255`.

use vstd::prelude::*;

use crate::error::CoreError;
use crate::text::{from_chars, push_str_chars};
use vstd::arithmetic::div_mod::{lemma_add_mod_noop, lemma_small_mod};
use vstd::utf8::encode_utf8;

verus! {

/// Some input is empty, or there are no inputs at all.
pub open spec fn has_empty_input(inputs: Seq<String>) -> bool {
    inputs.len() == 0 || exists|i: int| 0 <= i < inputs.len() && inputs[i]@.len() == 0
}

/// Refuses an empty batch and a batch holding an empty string.
pub fn validate_inputs(inputs: &Vec<String>) -> (r: Result<(), CoreError>)
    ensures
        r is Err <==> has_empty_input(inputs@),
        r is Err ==> r matches Err(CoreError::EmptyInput),
{
    if inputs.len() == 0 {
        return Err(CoreError::EmptyInput);
    }
    let mut i: usize = 0;
    while i < inputs.len()
        invariant
            i <= inputs.len(),
            forall|j: int| 0 <= j < i ==> inputs@[j]@.len() != 0,
        decreases inputs.len() - i,
    {
        if inputs[i].as_str().is_empty() {
            return Err(CoreError::EmptyInput);
        }
        i = i + 1;
    }
    Ok(())
}

/// The URL of the batch embedding endpoint under the server's base URL.
pub fn embed_endpoint(url: &str) -> (r: String)
    ensures
        r@ == url@ + "/api/embed"@,
{
    let mut v: Vec<char> = Vec::new();
    push_str_chars(&mut v, url);
    push_str_chars(&mut v, "/api/embed");
    from_chars(&v)
}

/// Checks the shape of an embedding response for `n_inputs` inputs against
/// the expected dimension: one vector per input, then every vector of length
/// `dim`; the first disagreement is reported.
pub fn check_embeddings_shape(n_inputs: usize, dim: usize, row_lens: &Vec<usize>) -> (r: Result<
    (),
    CoreError,
>)
    ensures
        row_lens.len() != n_inputs ==> (r matches Err(
            CoreError::DimensionMismatch { expected, actual },
        ) && expected == n_inputs && actual == row_lens.len()),
        row_lens.len() == n_inputs ==> match r {
            Ok(()) => forall|i: int| 0 <= i < row_lens.len() ==> row_lens[i] == dim,
            Err(CoreError::DimensionMismatch { expected, actual }) => {
                &&& expected == dim
                &&& exists|i: int|
                    0 <= i < row_lens.len() && row_lens[i] == actual && actual != dim && forall|
                        j: int,
                    | 0 <= j < i ==> row_lens[j] == dim
            },
            Err(_) => false,
        },
{
    if row_lens.len() != n_inputs {
        return Err(CoreError::DimensionMismatch { expected: n_inputs, actual: row_lens.len() });
    }
    let mut i: usize = 0;
    while i < row_lens.len()
        invariant
            i <= row_lens.len(),
            row_lens.len() == n_inputs,
            forall|j: int| 0 <= j < i ==> row_lens[j] == dim,
        decreases row_lens.len() - i,
    {
        if row_lens[i] != dim {
            return Err(CoreError::DimensionMismatch { expected: dim, actual: row_lens[i] });
        }
        i = i + 1;
    }
    Ok(())
}

// ─── Deterministic embedders ────────────────────────────────────────────────

/// Sum of the bytes.
pub open spec fn byte_sum(b: Seq<u8>) -> nat
    decreases b.len(),
{
    if b.len() == 0 {
        0
    } else {
        byte_sum(b.drop_last()) + b.last() as nat
    }
}

/// The deterministic embedding of a string's UTF-8 bytes: component `i` has
/// level `(byte sum + i) mod 256`.
pub open spec fn fake_embedding(bytes: Seq<u8>, dim: nat) -> Seq<u8> {
    Seq::new(dim, |i: int| ((byte_sum(bytes) + i) % 256) as u8)
}

/// The deterministic embeddings of a batch, one per input, in order.
pub open spec fn fake_embeddings(inputs: Seq<String>, dim: nat) -> Seq<Seq<u8>> {
    Seq::new(inputs.len(), |k: int| fake_embedding(encode_utf8(inputs[k]@), dim))
}

/// The deterministic embedders return one vector per input, each of the
/// configured dimension.
pub proof fn law_fake_embeddings_shape(inputs: Seq<String>, dim: nat)
    ensures
        fake_embeddings(inputs, dim).len() == inputs.len(),
        forall|k: int|
            0 <= k < inputs.len() ==> (#[trigger] fake_embeddings(inputs, dim)[k]).len() == dim,
{
}

fn fake_embed_one(s: &String, dim: usize) -> (r: Vec<u8>)
    ensures
        r@ == fake_embedding(encode_utf8(s@), dim as nat),
{
    let bytes = s.as_str().as_bytes();
    let ghost b = bytes@;
    let mut acc: u64 = 0;
    let mut j: usize = 0;
    while j < bytes.len()
        invariant
            j <= bytes.len(),
            b == bytes@,
            acc == byte_sum(b.take(j as int)) % 256,
        decreases bytes.len() - j,
    {
        proof {
            assert(b.take(j + 1).drop_last() =~= b.take(j as int));
            lemma_add_mod_noop(byte_sum(b.take(j as int)) as int, bytes[j as int] as int, 256);
            lemma_small_mod(bytes[j as int] as nat, 256);
        }
        acc = (acc + bytes[j] as u64) % 256;
        j = j + 1;
    }
    assert(b.take(bytes.len() as int) == b);
    let mut r: Vec<u8> = Vec::new();
    let mut i: usize = 0;
    while i < dim
        invariant
            i <= dim,
            acc == byte_sum(b) % 256,
            b == encode_utf8(s@),
            r@ == fake_embedding(b, dim as nat).take(i as int),
        decreases dim - i,
    {
        proof {
            lemma_add_mod_noop(byte_sum(b) as int, i as int, 256);
            lemma_small_mod(acc as nat, 256);
        }
        let level = ((acc + (i % 256) as u64) % 256) as u8;
        r.push(level);
        i = i + 1;
        assert(r@ =~= fake_embedding(b, dim as nat).take(i as int));
    }
    assert(fake_embedding(b, dim as nat).take(dim as int) =~= fake_embedding(b, dim as nat));
    r
}

fn fake_embed_batch(inputs: &Vec<String>, dim: usize) -> (r: Vec<Vec<u8>>)
    ensures
        r.deep_view() == fake_embeddings(inputs@, dim as nat),
{
    let mut r: Vec<Vec<u8>> = Vec::new();
    let mut k: usize = 0;
    while k < inputs.len()
        invariant
            k <= inputs.len(),
            r.deep_view() == fake_embeddings(inputs@, dim as nat).take(k as int),
        decreases inputs.len() - k,
    {
        let row = fake_embed_one(&inputs[k], dim);
        let ghost old_dv = r.deep_view();
        let ghost rv = row@;
        assert(row.deep_view() =~= row@);
        r.push(row);
        assert(r.deep_view() =~= old_dv.push(rv));
        k = k + 1;
        assert(r.deep_view() =~= fake_embeddings(inputs@, dim as nat).take(k as int));
    }
    assert(fake_embeddings(inputs@, dim as nat).take(inputs.len() as int) =~= fake_embeddings(
        inputs@,
        dim as nat,
    ));
    r
}

/// A deterministic embedder for tests: each input's components are derived
/// from the sum of its UTF-8 bytes.
pub struct FakeEmbedder {
    pub dim: usize,
}

impl FakeEmbedder {
    /// Embeds a batch, refusing empty input; component `i` of an input's
    /// vector has level `(byte sum + i) mod 256`.
    pub fn embed_levels(&self, inputs: &Vec<String>) -> (r: Result<Vec<Vec<u8>>, CoreError>)
        ensures
            has_empty_input(inputs@) ==> r matches Err(CoreError::EmptyInput),
            !has_empty_input(inputs@) ==> (r matches Ok(v) && v.deep_view() == fake_embeddings(
                inputs@,
                self.dim as nat,
            )),
    {
        validate_inputs(inputs)?;
        Ok(fake_embed_batch(inputs, self.dim))
    }
}

/// An embedder that behaves like [`FakeEmbedder`] except that its
/// `fail_on_call`-th accepted call (1-indexed) fails with an HTTP error.
pub struct FailingEmbedder {
    pub dim: usize,
    pub fail_on_call: usize,
    /// Number of calls that got past input validation.
    pub counter: usize,
}

impl FailingEmbedder {
    /// Create a new `FailingEmbedder` that fails on the `fail_on_call`-th
    /// `embed()` call (1-indexed).
    pub fn new(dim: usize, fail_on_call: usize) -> (r: Self)
        ensures
            r.dim == dim,
            r.fail_on_call == fail_on_call,
            r.counter == 0,
    {
        FailingEmbedder { dim, fail_on_call, counter: 0 }
    }

    /// Embeds a batch: empty input is refused without counting the call;
    /// otherwise the call is counted and the `fail_on_call`-th one fails with
    /// `Http("simulated embed failure")`, the others succeed as [`FakeEmbedder`].
    pub fn embed_levels(&mut self, inputs: &Vec<String>) -> (r: Result<Vec<Vec<u8>>, CoreError>)
        requires
            old(self).counter < usize::MAX,
        ensures
            final(self).dim == old(self).dim,
            final(self).fail_on_call == old(self).fail_on_call,
            has_empty_input(inputs@) ==> (r matches Err(CoreError::EmptyInput)
                && final(self).counter == old(self).counter),
            !has_empty_input(inputs@) ==> final(self).counter == old(self).counter + 1,
            !has_empty_input(inputs@) && final(self).counter == old(self).fail_on_call ==> (r matches Err(
                CoreError::Http(m),
            ) && m@ == "simulated embed failure"@),
            !has_empty_input(inputs@) && final(self).counter != old(self).fail_on_call ==> (r matches Ok(
                v,
            ) && v.deep_view() == fake_embeddings(inputs@, old(self).dim as nat)),
    {
        validate_inputs(inputs)?;
        self.counter = self.counter + 1;
        if self.counter == self.fail_on_call {
            return Err(CoreError::Http(String::from_str("simulated embed failure")));
        }
        Ok(fake_embed_batch(inputs, self.dim))
    }
}

} // verus!
