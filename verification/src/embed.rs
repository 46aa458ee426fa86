//! Embedding channel: the error type, the offline stub's configuration and
//! the shape check of a remote embedding reply.

use vstd::prelude::*;

verus! {

/// An embedding failure, with its message.
#[derive(Debug, Clone, PartialEq)]
pub struct EmbedError(pub String);

/// The deterministic offline embedder (character n-gram buckets).
#[derive(Debug, Clone, Copy, PartialEq, Eq, Structural)]
pub struct StubEmbedder {
    dims: usize,
}

impl StubEmbedder {
    /// A stub embedder producing vectors of `dims` components.
    pub fn new(dims: usize) -> (r: StubEmbedder)
        ensures
            r.spec_dims() == dims,
    {
        StubEmbedder { dims }
    }

    pub closed spec fn spec_dims(&self) -> usize {
        self.dims
    }

    /// Number of components of each vector.
    pub fn dims(&self) -> (r: usize)
        ensures
            r == self.spec_dims(),
    {
        self.dims
    }
}

/// Why a remote embedding reply was refused.
#[derive(Debug, Clone, Copy, PartialEq, Eq, Structural)]
pub enum ReplyShapeError {
    /// The reply holds `got` vectors for `expected` texts.
    Count { got: usize, expected: usize },
    /// A vector has `got` components where `expected` were configured.
    Dims { got: usize, expected: usize },
}

/// The length of the first vector whose length is not `dims`.
pub open spec fn first_mismatch(lens: Seq<usize>, dims: usize) -> Option<usize>
    decreases lens.len(),
{
    if lens.len() == 0 {
        None
    } else if lens[0] != dims {
        Some(lens[0])
    } else {
        first_mismatch(lens.drop_first(), dims)
    }
}

/// The shape check of a reply: one vector per text, each of the configured
/// number of components; the first vector of a wrong length is reported.
pub open spec fn reply_shape(lens: Seq<usize>, texts: usize, dims: usize) -> Result<(), ReplyShapeError> {
    if lens.len() != texts {
        Err(ReplyShapeError::Count { got: lens.len() as usize, expected: texts })
    } else {
        match first_mismatch(lens, dims) {
            Some(got) => Err(ReplyShapeError::Dims { got, expected: dims }),
            None => Ok(()),
        }
    }
}

/// What the first wrong length is: with `j` the first vector whose length
/// is not `dims`, its length; none when every vector has `dims` components.
proof fn lemma_first_mismatch(lens: Seq<usize>, dims: usize)
    ensures
        first_mismatch(lens, dims) is None <==> forall|i: int| 0 <= i < lens.len() ==> lens[i] == dims,
        forall|j: int|
            0 <= j < lens.len() && lens[j] != dims && (forall|k: int| 0 <= k < j ==> lens[k] == dims)
                ==> first_mismatch(lens, dims) == Some(#[trigger] lens[j]),
    decreases lens.len(),
{
    if lens.len() > 0 {
        let rest = lens.drop_first();
        lemma_first_mismatch(rest, dims);
        assert forall|j: int|
            0 <= j < lens.len() && lens[j] != dims && (forall|k: int| 0 <= k < j ==> lens[k] == dims) implies first_mismatch(
                lens,
                dims,
            ) == Some(#[trigger] lens[j]) by {
            if j > 0 {
                assert(lens[0] == dims);
                assert(rest[j - 1] == lens[j]);
                assert forall|k: int| 0 <= k < j - 1 implies rest[k] == dims by {
                    assert(rest[k] == lens[k + 1]);
                }
            }
        }
        if lens[0] == dims {
            assert((forall|i: int| 0 <= i < rest.len() ==> rest[i] == dims) <==> (forall|i: int|
                0 <= i < lens.len() ==> lens[i] == dims)) by {
                if forall|i: int| 0 <= i < rest.len() ==> rest[i] == dims {
                    assert forall|i: int| 0 <= i < lens.len() implies lens[i] == dims by {
                        if i > 0 {
                            assert(lens[i] == rest[i - 1]);
                        }
                    }
                }
                if forall|i: int| 0 <= i < lens.len() ==> lens[i] == dims {
                    assert forall|i: int| 0 <= i < rest.len() implies rest[i] == dims by {
                        assert(rest[i] == lens[i + 1]);
                    }
                }
            }
        }
    }
}

/// The shape check refuses a reply unless it holds one vector per text and
/// every vector, the last one included, has the configured number of
/// components. A wrong count is reported as such; otherwise the first
/// vector of a wrong length is reported with its length.
pub proof fn lemma_reply_shape_checks_every_vector(lens: Seq<usize>, texts: usize, dims: usize)
    ensures
        reply_shape(lens, texts, dims) is Ok <==> (lens.len() == texts && forall|i: int|
            0 <= i < lens.len() ==> lens[i] == dims),
        lens.len() != texts ==> reply_shape(lens, texts, dims) == Err::<(), ReplyShapeError>(
            ReplyShapeError::Count { got: lens.len() as usize, expected: texts },
        ),
        forall|j: int|
            0 <= j < lens.len() && lens.len() == texts && lens[j] != dims && (forall|k: int|
                0 <= k < j ==> lens[k] == dims) ==> reply_shape(lens, texts, dims) == Err::<(), ReplyShapeError>(
                ReplyShapeError::Dims { got: #[trigger] lens[j], expected: dims },
            ),
{
    lemma_first_mismatch(lens, dims);
}

/// Checks the shape of a reply given the lengths of its vectors.
pub fn check_reply_shape(lens: &Vec<usize>, texts: usize, dims: usize) -> (r: Result<(), ReplyShapeError>)
    ensures
        r == reply_shape(lens@, texts, dims),
{
    if lens.len() != texts {
        return Err(ReplyShapeError::Count { got: lens.len(), expected: texts });
    }
    let mut i: usize = 0;
    assert(lens@.skip(0) =~= lens@);
    while i < lens.len()
        invariant
            i <= lens@.len(),
            lens@.len() == texts,
            first_mismatch(lens@, dims) == first_mismatch(lens@.skip(i as int), dims),
        decreases lens@.len() - i,
    {
        assert(lens@.skip(i as int)[0] == lens@[i as int]);
        if lens[i] != dims {
            return Err(ReplyShapeError::Dims { got: lens[i], expected: dims });
        }
        assert(lens@.skip(i as int).drop_first() =~= lens@.skip(i + 1));
        i = i + 1;
    }
    Ok(())
}

} // verus!
