use baloo_lookup::error::BalooError;
use baloo_lookup::pcs::{Evaluation, PolynomialCommitmentScheme, TranscriptRead, TranscriptWrite};

/// A transcript that records commitments and can be told to refuse writes.
struct Recorder {
    comms: Vec<u64>,
    capacity: usize,
}

impl TranscriptWrite<u64, u64> for Recorder {
    // Only the verifier reads the spec methods; a plain build still needs a body.
    fn written(&self) -> vstd::seq::Seq<u64> {
        vstd::seq::Seq::empty()
    }

    fn write_commitment(&mut self, comm: &u64) -> Result<(), BalooError> {
        if self.comms.len() >= self.capacity {
            return Err(BalooError::Serialization);
        }
        self.comms.push(*comm);
        Ok(())
    }

    fn write_field_element(&mut self, _fe: &u64) -> Result<(), BalooError> {
        Ok(())
    }

    fn squeeze_challenge(&mut self) -> u64 {
        self.comms.iter().sum()
    }
}

struct NoReader;

impl TranscriptRead<u64, u64> for NoReader {
    fn read_commitment(&mut self) -> Result<u64, BalooError> {
        Err(BalooError::Serialization)
    }

    fn read_field_element(&mut self) -> Result<u64, BalooError> {
        Err(BalooError::Serialization)
    }

    fn squeeze_challenge(&mut self) -> u64 {
        0
    }
}

/// A toy scheme: the commitment to a polynomial is the sum of its coefficients.
struct SumScheme;

impl PolynomialCommitmentScheme<u64> for SumScheme {
    type Param = usize;
    type ProverParam = usize;
    type VerifierParam = usize;
    type Polynomial = Vec<u64>;
    type Point = u64;
    type Commitment = u64;
    type CommitmentWithAux = (u64, usize);

    // Only the verifier reads the spec methods; a plain build still needs a body.
    fn commit_spec(pp: &usize, poly: &Vec<u64>) -> Result<(u64, usize), BalooError> {
        Self::commit(pp, poly)
    }

    fn batch_commit_spec(_pp: &usize, _polys: vstd::seq::Seq<Vec<u64>>) -> Result<vstd::seq::Seq<(u64, usize)>, BalooError> {
        Err(BalooError::Setup)
    }

    fn comm_of(c: (u64, usize)) -> u64 {
        c.0
    }

    fn setup(size: usize, _randomness: [u8; 32]) -> Result<usize, BalooError> {
        Ok(size)
    }

    fn trim(param: &usize, size: usize) -> Result<(usize, usize), BalooError> {
        if size > *param {
            return Err(BalooError::Setup);
        }
        Ok((size, size))
    }

    fn commit(pp: &usize, poly: &Vec<u64>) -> Result<(u64, usize), BalooError> {
        if poly.len() > *pp {
            return Err(BalooError::Setup);
        }
        Ok((poly.iter().sum(), poly.len()))
    }

    fn commitment(c: &(u64, usize)) -> &u64 {
        &c.0
    }

    fn batch_commit(pp: &usize, polys: &Vec<Vec<u64>>) -> Result<Vec<(u64, usize)>, BalooError> {
        polys.iter().map(|p| Self::commit(pp, p)).collect()
    }

    fn open<T: TranscriptWrite<u64, u64>>(
        _pp: &usize,
        poly: &Vec<u64>,
        _comm: &(u64, usize),
        point: &u64,
        eval: &u64,
        _transcript: &mut T,
    ) -> Result<(), BalooError> {
        let v = poly.iter().rev().fold(0u64, |acc, c| acc * point + c);
        if v == *eval { Ok(()) } else { Err(BalooError::Opening) }
    }

    fn batch_open<T: TranscriptWrite<u64, u64>>(
        _pp: &usize,
        _polys: &Vec<Vec<u64>>,
        _comms: &Vec<(u64, usize)>,
        _points: &Vec<u64>,
        _evals: &Vec<Evaluation<u64>>,
        _transcript: &mut T,
    ) -> Result<(), BalooError> {
        Ok(())
    }

    fn verify<T: TranscriptRead<u64, u64>>(
        _vp: &usize,
        _comm: &u64,
        _point: &u64,
        _eval: &u64,
        _transcript: &mut T,
    ) -> Result<(), BalooError> {
        Ok(())
    }

    fn batch_verify<T: TranscriptRead<u64, u64>>(
        _vp: &usize,
        _comms: &Vec<u64>,
        _points: &Vec<u64>,
        _evals: &Vec<Evaluation<u64>>,
        _transcript: &mut T,
    ) -> Result<(), BalooError> {
        Ok(())
    }
}

#[test]
fn commit_and_write_appends_the_commitment() {
    let mut t = Recorder { comms: vec![7], capacity: 10 };
    let c = SumScheme::commit_and_write(&4, &vec![1, 2, 3], &mut t).unwrap();
    assert_eq!(c, (6, 3));
    assert_eq!(t.comms, vec![7, 6]);
}

#[test]
fn commit_and_write_writes_nothing_when_commit_fails() {
    let mut t = Recorder { comms: vec![], capacity: 10 };
    assert_eq!(SumScheme::commit_and_write(&2, &vec![1, 2, 3], &mut t), Err(BalooError::Setup));
    assert!(t.comms.is_empty());
}

#[test]
fn batch_commit_and_write_keeps_order() {
    let mut t = Recorder { comms: vec![], capacity: 10 };
    let polys = vec![vec![1, 1], vec![5], vec![2, 3, 4]];
    let cs = SumScheme::batch_commit_and_write(&3, &polys, &mut t).unwrap();
    assert_eq!(cs, vec![(2, 2), (5, 1), (9, 3)]);
    assert_eq!(t.comms, vec![2, 5, 9]);
    assert_eq!(t.squeeze_challenge(), 16);
}

#[test]
fn batch_commit_and_write_stops_at_first_refused_write() {
    let mut t = Recorder { comms: vec![], capacity: 2 };
    let polys = vec![vec![1], vec![2], vec![3]];
    assert_eq!(SumScheme::batch_commit_and_write(&3, &polys, &mut t), Err(BalooError::Serialization));
    assert_eq!(t.comms, vec![1, 2]);
    let mut u = Recorder { comms: vec![], capacity: 5 };
    assert_eq!(SumScheme::batch_commit_and_write(&1, &vec![vec![1], vec![2, 3]], &mut u), Err(BalooError::Setup));
    assert!(u.comms.is_empty());
}

#[test]
fn opening_checks_the_claimed_value() {
    let mut t = Recorder { comms: vec![], capacity: 1 };
    let c = SumScheme::commit(&3, &vec![1, 2, 3]).unwrap();
    // 1 + 2·2 + 3·4 = 17
    assert_eq!(SumScheme::open(&3, &vec![1, 2, 3], &c, &2, &17, &mut t), Ok(()));
    assert_eq!(SumScheme::open(&3, &vec![1, 2, 3], &c, &2, &18, &mut t), Err(BalooError::Opening));
    let mut r = NoReader;
    assert!(r.read_commitment().is_err());
    assert_eq!(r.squeeze_challenge(), 0);
}
