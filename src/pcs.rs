//! The interface to a polynomial commitment scheme and to the Fiat-Shamir
//! transcript that commitments are written to. Both are implemented by the
//! users of this crate; the default methods that combine them are verified
//! against the contracts below.
use vstd::prelude::*;
use crate::error::BalooError;

verus! {

/// The prover's side of an append-only transcript.
pub trait TranscriptWrite<C, F> {
    /// The commitments written so far, in order.
    spec fn written(&self) -> Seq<C>;

    /// Appends one commitment; on failure nothing is appended.
    fn write_commitment(&mut self, comm: &C) -> (r: Result<(), BalooError>)
        ensures
            r is Ok ==> final(self).written() == old(self).written().push(*comm),
            r is Err ==> final(self).written() == old(self).written(),
    ;

    /// Appends one field element.
    fn write_field_element(&mut self, fe: &F) -> (r: Result<(), BalooError>);

    /// A challenge derived from everything written so far.
    fn squeeze_challenge(&mut self) -> F;
}

/// The verifier's side: replays the same bytes and derives the same challenges.
pub trait TranscriptRead<C, F> {
    fn read_commitment(&mut self) -> Result<C, BalooError>;

    fn read_field_element(&mut self) -> Result<F, BalooError>;

    fn squeeze_challenge(&mut self) -> F;
}

/// A polynomial commitment scheme over field `F`.
pub trait PolynomialCommitmentScheme<F> {
    type Param;
    type ProverParam;
    type VerifierParam;
    type Polynomial;
    type Point;
    type Commitment;
    type CommitmentWithAux;

    /// What `commit` returns for these arguments.
    spec fn commit_spec(pp: &Self::ProverParam, poly: &Self::Polynomial) -> Result<
        Self::CommitmentWithAux,
        BalooError,
    >;

    /// What `batch_commit` returns for these arguments.
    spec fn batch_commit_spec(pp: &Self::ProverParam, polys: Seq<Self::Polynomial>) -> Result<
        Seq<Self::CommitmentWithAux>,
        BalooError,
    >;

    /// The bare commitment inside a commitment with auxiliary data.
    spec fn comm_of(c: Self::CommitmentWithAux) -> Self::Commitment;

    /// Parameters for polynomials of up to `size` coefficients, drawn from `randomness`.
    fn setup(size: usize, randomness: [u8; 32]) -> Result<Self::Param, BalooError>;

    fn trim(param: &Self::Param, size: usize) -> Result<(Self::ProverParam, Self::VerifierParam), BalooError>;

    fn commit(pp: &Self::ProverParam, poly: &Self::Polynomial) -> (r: Result<Self::CommitmentWithAux, BalooError>)
        ensures
            r == Self::commit_spec(pp, poly),
    ;

    /// The bare commitment inside `c`.
    fn commitment(c: &Self::CommitmentWithAux) -> (r: &Self::Commitment)
        ensures
            *r == Self::comm_of(*c),
    ;

    /// Commits to `poly` and writes the commitment to the transcript. When
    /// committing fails nothing is written; when writing fails nothing else is.
    fn commit_and_write<T: TranscriptWrite<Self::Commitment, F>>(
        pp: &Self::ProverParam,
        poly: &Self::Polynomial,
        transcript: &mut T,
    ) -> (r: Result<Self::CommitmentWithAux, BalooError>)
        ensures
            Self::commit_spec(pp, poly) is Err ==> r == Self::commit_spec(pp, poly)
                && final(transcript).written() == old(transcript).written(),
            r matches Ok(c) ==> Self::commit_spec(pp, poly) == Ok::<Self::CommitmentWithAux, BalooError>(c)
                && final(transcript).written() == old(transcript).written().push(Self::comm_of(c)),
            r is Err ==> final(transcript).written() == old(transcript).written(),
    {
        let comm = match Self::commit(pp, poly) {
            Err(e) => {
                return Err(e);
            },
            Ok(c) => c,
        };
        match transcript.write_commitment(Self::commitment(&comm)) {
            Err(e) => Err(e),
            Ok(()) => Ok(comm),
        }
    }

    fn batch_commit(pp: &Self::ProverParam, polys: &Vec<Self::Polynomial>) -> (r: Result<
        Vec<Self::CommitmentWithAux>,
        BalooError,
    >)
        ensures
            r is Ok <==> Self::batch_commit_spec(pp, polys@) is Ok,
            r matches Ok(cs) ==> Self::batch_commit_spec(pp, polys@) == Ok::<
                Seq<Self::CommitmentWithAux>,
                BalooError,
            >(cs@),
            r matches Err(e) ==> Self::batch_commit_spec(pp, polys@) == Err::<
                Seq<Self::CommitmentWithAux>,
                BalooError,
            >(e),
    ;

    /// Commits to each polynomial and writes the commitments to the
    /// transcript in index order, stopping at the first failure. Whatever
    /// happens, the transcript only grows by commitments of these polynomials,
    /// in order.
    fn batch_commit_and_write<T: TranscriptWrite<Self::Commitment, F>>(
        pp: &Self::ProverParam,
        polys: &Vec<Self::Polynomial>,
        transcript: &mut T,
    ) -> (r: Result<Vec<Self::CommitmentWithAux>, BalooError>)
        ensures
            Self::batch_commit_spec(pp, polys@) is Err ==> r is Err && final(transcript).written()
                == old(transcript).written(),
            r matches Ok(cs) ==> Self::batch_commit_spec(pp, polys@) == Ok::<
                Seq<Self::CommitmentWithAux>,
                BalooError,
            >(cs@) && final(transcript).written() == old(transcript).written() + cs@.map_values(
                |c: Self::CommitmentWithAux| Self::comm_of(c),
            ),
            r is Err && Self::batch_commit_spec(pp, polys@) is Ok ==> {
                let cs = Self::batch_commit_spec(pp, polys@)->Ok_0;
                exists|n: int|
                    #![trigger cs.take(n)]
                    0 <= n <= cs.len() && final(transcript).written() == old(transcript).written()
                        + cs.take(n).map_values(|c: Self::CommitmentWithAux| Self::comm_of(c))
            },
    {
        let comms = match Self::batch_commit(pp, polys) {
            Err(e) => {
                return Err(e);
            },
            Ok(cs) => cs,
        };
        let ghost start = transcript.written();
        let mut i: usize = 0;
        while i < comms.len()
            invariant
                0 <= i <= comms.len(),
                Self::batch_commit_spec(pp, polys@) == Ok::<Seq<Self::CommitmentWithAux>, BalooError>(
                    comms@,
                ),
                start == old(transcript).written(),
                transcript.written() == start + comms@.take(i as int).map_values(
                    |c: Self::CommitmentWithAux| Self::comm_of(c),
                ),
            decreases comms.len() - i,
        {
            match transcript.write_commitment(Self::commitment(&comms[i])) {
                Err(e) => {
                    proof {
                        let cs = Self::batch_commit_spec(pp, polys@)->Ok_0;
                        assert(cs.take(i as int) == comms@.take(i as int));
                    }
                    return Err(e);
                },
                Ok(()) => {},
            }
            proof {
                assert(comms@.take(i + 1) == comms@.take(i as int).push(comms@[i as int]));
                assert(comms@.take(i + 1).map_values(|c: Self::CommitmentWithAux| Self::comm_of(c))
                    == comms@.take(i as int).map_values(|c: Self::CommitmentWithAux| Self::comm_of(c)).push(
                    Self::comm_of(comms@[i as int]),
                ));
            }
            i = i + 1;
        }
        proof {
            assert(comms@.take(comms.len() as int) == comms@);
        }
        Ok(comms)
    }

    fn open<T: TranscriptWrite<Self::Commitment, F>>(
        pp: &Self::ProverParam,
        poly: &Self::Polynomial,
        comm: &Self::CommitmentWithAux,
        point: &Self::Point,
        eval: &F,
        transcript: &mut T,
    ) -> Result<(), BalooError>;

    fn batch_open<T: TranscriptWrite<Self::Commitment, F>>(
        pp: &Self::ProverParam,
        polys: &Vec<Self::Polynomial>,
        comms: &Vec<Self::CommitmentWithAux>,
        points: &Vec<Self::Point>,
        evals: &Vec<Evaluation<F>>,
        transcript: &mut T,
    ) -> Result<(), BalooError>;

    fn verify<T: TranscriptRead<Self::Commitment, F>>(
        vp: &Self::VerifierParam,
        comm: &Self::Commitment,
        point: &Self::Point,
        eval: &F,
        transcript: &mut T,
    ) -> Result<(), BalooError>;

    fn batch_verify<T: TranscriptRead<Self::Commitment, F>>(
        vp: &Self::VerifierParam,
        comms: &Vec<Self::Commitment>,
        points: &Vec<Self::Point>,
        evals: &Vec<Evaluation<F>>,
        transcript: &mut T,
    ) -> Result<(), BalooError>;
}

/// A claimed evaluation: polynomial number `poly` takes `value` at point number `point`.
#[derive(Clone, Debug)]
pub struct Evaluation<F> {
    poly: usize,
    point: usize,
    value: F,
}

impl<F> Evaluation<F> {
    /// Index of the polynomial that is evaluated.
    pub closed spec fn poly_index(&self) -> usize {
        self.poly
    }

    /// Index of the point at which it is evaluated.
    pub closed spec fn point_index(&self) -> usize {
        self.point
    }

    /// The claimed value.
    pub closed spec fn claimed(&self) -> F {
        self.value
    }

    pub fn new(poly: usize, point: usize, value: F) -> (r: Self)
        ensures
            r.poly_index() == poly,
            r.point_index() == point,
            r.claimed() == value,
    {
        Evaluation { poly, point, value }
    }

    pub fn poly(&self) -> (r: usize)
        ensures
            r == self.poly_index(),
    {
        self.poly
    }

    pub fn point(&self) -> (r: usize)
        ensures
            r == self.point_index(),
    {
        self.point
    }

    pub fn value(&self) -> (r: &F)
        ensures
            *r == self.claimed(),
    {
        &self.value
    }
}

} // verus!
