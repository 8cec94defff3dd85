//! click-captcha-matcher: 250x80 click captcha JPEG -> 4 click points, in prompt order.
//!
//! JPEG decoding, fixed-layout cropping, the two-tower CNN and the 360-permutation
//! assignment. Everything is verified; the network and the assignment are written over any
//! number type (see `scalar`), and single-precision numbers are bit patterns (see `ieee`).

pub mod arith;
pub mod assign;
pub mod cli;
pub mod geometry;
pub mod ieee;
pub mod jpeg;
pub mod kernel;
pub mod model;
pub mod scalar;

pub use model::Model;

use assign::{
    assign, grid_of, lemma_no_larger_sum, lemma_score_is_a_sum, lemma_slots_distinct, ordered,
    ranked, slots_of, Assignment,
};
use geometry::laws::{lemma_cands_in_order, lemma_rounds_to_nearest};
use geometry::{
    cand_pixel, cand_value, candidate_centers, candidate_crops, center_of, lemma_center_croppable,
    lemma_center_in_slot, points_of, prompt_crops, prompt_pixel, round_half_even, rounded_int,
    CAND_PIXELS, H, PROMPT_PIXELS, W,
};
use ieee::{one, value};
use jpeg::image::decoded;
use kernel::Kernel;
use model::maps::Weights;
use model::net::{zeroed, Scratch};
use scalar::Scalar;
use vstd::math::abs;
use vstd::prelude::*;

verus! {

/// Why there is no answer.
#[derive(Clone, Copy, Debug, PartialEq, Eq, Structural)]
pub enum Error {
    Arg,
    Jpeg,
    Unsupported,
    Size,
    Model,
}

/// Error codes shared with the C ABI.
pub open spec fn code_of(e: Error) -> int {
    match e {
        Error::Arg => -1,
        Error::Jpeg => -2,
        Error::Unsupported => -3,
        Error::Size => -4,
        Error::Model => -5,
    }
}

impl Error {
    /// The error's code in the C ABI.
    pub fn code(self) -> (r: i32)
        ensures
            r == code_of(self),
    {
        match self {
            Error::Arg => -1,
            Error::Jpeg => -2,
            Error::Unsupported => -3,
            Error::Size => -4,
            Error::Model => -5,
        }
    }
}

/// Errors can be told apart by their codes, and none is zero, which stands for success.
pub proof fn lemma_codes(a: Error, b: Error)
    ensures
        code_of(a) == code_of(b) ==> a == b,
        -5 <= code_of(a) < 0,
{
}

/// What a decoding error is to a caller.
pub open spec fn error_of(e: jpeg::Error) -> Error {
    match e {
        jpeg::Error::Format => Error::Jpeg,
        jpeg::Error::Unsupported => Error::Unsupported,
        jpeg::Error::Size => Error::Size,
    }
}

impl vstd::std_specs::convert::FromSpecImpl<jpeg::Error> for Error {
    open spec fn obeys_from_spec() -> bool {
        true
    }

    open spec fn from_spec(e: jpeg::Error) -> Error {
        error_of(e)
    }
}

impl From<jpeg::Error> for Error {
    fn from(e: jpeg::Error) -> (r: Error) {
        match e {
            jpeg::Error::Format => Error::Jpeg,
            jpeg::Error::Unsupported => Error::Unsupported,
            jpeg::Error::Size => Error::Size,
        }
    }
}

/// Where to click.
pub struct Solution<T> {
    /// Click points (x, y), in prompt order.
    pub points: [[i32; 2]; 4],
    pub slots: [usize; 4],
    /// Confidence: best minus runner-up assignment score.
    pub margin: T,
    pub score: T,
}

/// The prompt crops of an image, as numbers.
pub open spec fn prompts_of<T: Scalar>(gray: Seq<u8>) -> Seq<T> {
    Seq::new(
        1024,
        |i: int| T::of_bits_spec(prompt_pixel(gray, i / 256, i % 256 / 16, i % 16)),
    )
}

/// The click centers of an image.
pub open spec fn centers_of(gray: Seq<u8>) -> Seq<Seq<u32>> {
    Seq::new(6, |k: int| center_of(gray, k))
}

/// The candidate crops of an image, as numbers.
pub open spec fn cands_of<T: Scalar>(gray: Seq<u8>) -> Seq<T> {
    Seq::new(9600, |i: int| T::of_bits_spec(cand_value(gray, centers_of(gray), i)))
}

/// The similarity matrix of an image.
pub open spec fn similarity_of<T: Scalar>(m: Weights<T>, gray: Seq<u8>) -> Seq<Seq<T>> {
    Seq::new(
        4,
        |i: int| Seq::new(6, |j: int| m.cosine(prompts_of(gray), cands_of(gray), i, j)),
    )
}

impl<T: Scalar> Solution<T> {
    /// The solution that a model gives for an image.
    pub open spec fn solves(self, m: Weights<T>, gray: Seq<u8>) -> bool {
        let all = ranked(similarity_of(m, gray), 1296);
        let slots = slots_of(all);
        &&& self.slots@ == slots
        &&& self.score == all.best
        &&& self.margin == all.best.minus_spec(all.second)
        &&& forall|i: int|
            0 <= i < 4 ==> (#[trigger] self.points[i])[0] == rounded_int(
                center_of(gray, slots[i] as int)[0],
            ) && self.points[i][1] == rounded_int(center_of(gray, slots[i] as int)[1])
    }
}

/// Buffers for one solve; reuse it across calls.
pub struct Work<T> {
    /// The decoded 250x80 gray image, row-major.
    pub gray: Vec<u8>,
    pub planes: Vec<u8>,
    /// The crops, as bit patterns and as numbers.
    pub prompt_bits: Vec<u32>,
    pub cand_bits: Vec<u32>,
    pub prompts: Vec<T>,
    pub cands: Vec<T>,
    pub net: Scratch<T>,
}

/// The numbers with the given bit patterns.
fn convert<T: Scalar>(bits: &Vec<u32>, out: &mut Vec<T>)
    requires
        bits@.len() == old(out)@.len(),
    ensures
        final(out)@.len() == old(out)@.len(),
        forall|i: int| 0 <= i < bits@.len() ==> #[trigger] final(out)@[i] == T::of_bits_spec(bits@[i]),
{
    let n: usize = bits.len();
    let mut i: usize = 0;
    while i < n
        invariant
            i <= n,
            n == bits@.len(),
            out@.len() == n,
            forall|j: int| 0 <= j < i ==> #[trigger] out@[j] == T::of_bits_spec(bits@[j]),
        decreases n - i,
    {
        let v: T = T::of_bits(bits[i]);
        out.set(i, v);
        i += 1;
    }
}

impl Model<u32> {
    /// The model with its weights as numbers.
    pub fn numbers<T: Scalar>(&self) -> (m: Model<T>)
        requires
            self.wf(),
        ensures
            m.wf(),
            m.width == self.width,
            m.dim == self.dim,
            m.buf@ == Seq::new(self.buf@.len(), |i: int| T::of_bits_spec(self.buf@[i])),
    {
        let mut buf: Vec<T> = zeroed(self.buf.len());
        convert(&self.buf, &mut buf);
        assert(buf@ =~= Seq::new(self.buf@.len(), |i: int| T::of_bits_spec(self.buf@[i])));
        Model { width: self.width, dim: self.dim, layers: self.layers, buf }
    }
}

impl<T: Kernel> Work<T> {
    /// The buffers fit images.
    pub open spec fn fits_images(self) -> bool {
        &&& self.gray@.len() == W * H
        &&& self.planes@.len() == jpeg::SCRATCH
        &&& self.prompt_bits@.len() == 4 * PROMPT_PIXELS
        &&& self.cand_bits@.len() == 6 * CAND_PIXELS
        &&& self.prompts@.len() == 4 * PROMPT_PIXELS
        &&& self.cands@.len() == 6 * CAND_PIXELS
    }

    /// The buffers fit images, and networks of the given width and dimension.
    pub open spec fn wf(self, width: int, dim: int) -> bool {
        self.fits_images() && self.net.wf(width, dim)
    }

    /// Buffers for a model, with a black image.
    pub fn new<U>(m: &Model<U>) -> (w: Work<T>)
        requires
            m.wf(),
        ensures
            w.wf(m.width as int, m.dim as int),
            w.gray@ == Seq::new((W * H) as nat, |i: int| 0u8),
    {
        let gray: Vec<u8> = vec![0; W * H];
        assert(gray@ =~= Seq::new((W * H) as nat, |i: int| 0u8));
        Work {
            gray,
            planes: vec![0; jpeg::SCRATCH],
            prompt_bits: vec![0; 4 * PROMPT_PIXELS],
            cand_bits: vec![0; 6 * CAND_PIXELS],
            prompts: zeroed(4 * PROMPT_PIXELS),
            cands: zeroed(6 * CAND_PIXELS),
            net: Scratch::new(m),
        }
    }

    /// Decodes a JPEG into `self.gray`.
    pub fn decode(&mut self, jpeg: &[u8]) -> (r: Result<(), Error>)
        requires
            old(self).fits_images(),
        ensures
            final(self).fits_images(),
            final(self).net == old(self).net,
            match decoded(jpeg@) {
                Ok(image) => r == Ok::<(), Error>(()) && final(self).gray@ == image,
                Err(e) => r == Err::<(), Error>(error_of(e)) && final(self).gray@ == old(
                    self,
                ).gray@,
            },
    {
        match jpeg::decode(jpeg, self.planes.as_mut_slice(), self.gray.as_mut_slice()) {
            Ok(()) => {
                proof {
                    let image = decoded(jpeg@).unwrap();
                    assert(self.gray@ =~= image);
                }
                Ok(())
            },
            Err(e) => Err(Error::from(e)),
        }
    }

    /// (4, 6) cosine similarity and the 6 click centers for the image in `self.gray`.
    pub fn similarity(&mut self, m: &Model<T>) -> (r: ([[T; 6]; 4], [[u32; 2]; 6]))
        requires
            m.wf(),
            old(self).wf(m.width as int, m.dim as int),
        ensures
            final(self).wf(m.width as int, m.dim as int),
            final(self).gray@ == old(self).gray@,
            grid_of(r.0) == similarity_of(m@, old(self).gray@),
            points_of(r.1) == centers_of(old(self).gray@),
    {
        let ghost gray = self.gray@;
        let centers: [[u32; 2]; 6] = candidate_centers(self.gray.as_slice());
        proof {
            assert(points_of(centers) =~= centers_of(gray));
            assert forall|k: int| 0 <= k < 6 implies geometry::croppable(
                (#[trigger] centers[k])[0],
            ) && geometry::croppable(centers[k][1]) by {
                lemma_center_croppable(gray, k);
                assert(centers[k]@ == center_of(gray, k));
            }
        }
        prompt_crops(self.gray.as_slice(), self.prompt_bits.as_mut_slice());
        candidate_crops(self.gray.as_slice(), &centers, self.cand_bits.as_mut_slice());
        convert(&self.prompt_bits, &mut self.prompts);
        convert(&self.cand_bits, &mut self.cands);
        proof {
            assert(self.prompts@ =~= prompts_of(gray));
            assert(self.cands@ =~= cands_of(gray));
        }
        let sim: [[T; 6]; 4] = m.similarity(
            self.prompts.as_slice(),
            self.cands.as_slice(),
            &mut self.net,
        );
        proof {
            assert(grid_of(sim) =~~= similarity_of(m@, gray));
        }
        (sim, centers)
    }

    /// The solution for the image in `self.gray`.
    pub fn solve_gray(&mut self, m: &Model<T>) -> (r: Solution<T>)
        requires
            m.wf(),
            old(self).wf(m.width as int, m.dim as int),
        ensures
            final(self).wf(m.width as int, m.dim as int),
            final(self).gray@ == old(self).gray@,
            r.solves(m@, old(self).gray@),
    {
        let ghost gray = self.gray@;
        let (sim, centers): ([[T; 6]; 4], [[u32; 2]; 6]) = self.similarity(m);
        let a: Assignment<T> = assign(&sim);
        let mut points: [[i32; 2]; 4] = [[0; 2]; 4];
        let mut i: usize = 0;
        while i < 4
            invariant
                i <= 4,
                points_of(centers) == centers_of(gray),
                a.slots@ == slots_of(ranked(similarity_of(m@, gray), 1296)),
                forall|j: int|
                    0 <= j < i ==> (#[trigger] points[j])[0] == rounded_int(
                        center_of(gray, a.slots[j] as int)[0],
                    ) && points[j][1] == rounded_int(center_of(gray, a.slots[j] as int)[1]),
            decreases 4 - i,
        {
            proof {
                lemma_slots_distinct(
                    similarity_of(m@, gray),
                    if i == 3 {
                        2
                    } else {
                        i as int
                    },
                    3,
                );
                assert(a.slots[i as int] < 6);
                lemma_center_croppable(gray, a.slots[i as int] as int);
                assert(points_of(centers)[a.slots[i as int] as int] == center_of(
                    gray,
                    a.slots[i as int] as int,
                ));
            }
            let c: [u32; 2] = centers[a.slots[i]];
            points[i] = [round_half_even(c[0]), round_half_even(c[1])];
            i += 1;
        }
        Solution { points, slots: a.slots, margin: a.margin, score: a.score }
    }

    /// The solution for a JPEG.
    pub fn solve(&mut self, m: &Model<T>, jpeg: &[u8]) -> (r: Result<Solution<T>, Error>)
        requires
            m.wf(),
            old(self).wf(m.width as int, m.dim as int),
        ensures
            final(self).wf(m.width as int, m.dim as int),
            match decoded(jpeg@) {
                Ok(image) => r matches Ok(s) && s.solves(m@, image) && final(self).gray@ == image,
                Err(e) => r matches Err(x) && x == error_of(e) && final(self).gray@ == old(
                    self,
                ).gray@,
            },
    {
        match self.decode(jpeg) {
            Ok(()) => Ok(self.solve_gray(m)),
            Err(e) => Err(e),
        }
    }
}

impl<T: Kernel> Work<T> {
    /// Buffers for one call: the spare ones, or new ones while another call has those.
    pub fn take<U>(spare: &mut Option<Work<T>>, m: &Model<U>) -> (w: Work<T>)
        requires
            m.wf(),
            *old(spare) matches Some(s) ==> s.wf(m.width as int, m.dim as int),
        ensures
            w.wf(m.width as int, m.dim as int),
            *final(spare) is None,
            match *old(spare) {
                Some(s) => w == s,
                None => w.gray@ == Seq::new((W * H) as nat, |i: int| 0u8),
            },
    {
        match spare.take() {
            Some(w) => w,
            None => Work::new(m),
        }
    }
}

/// There is one solution to an image: the buffers that were used make no difference to it.
pub proof fn lemma_one_solution<T: Scalar>(
    a: Solution<T>,
    b: Solution<T>,
    m: Weights<T>,
    gray: Seq<u8>,
)
    requires
        a.solves(m, gray),
        b.solves(m, gray),
    ensures
        forall|i: int| 0 <= i < 4 ==> #[trigger] a.points[i]@ == b.points[i]@,
        a.slots@ == b.slots@,
        a.margin == b.margin,
        a.score == b.score,
{
    assert forall|i: int| 0 <= i < 4 implies #[trigger] a.points[i]@ == b.points[i]@ by {
        assert(a.points[i][0] == b.points[i][0] && a.points[i][1] == b.points[i][1]);
        assert(a.points[i]@ =~= b.points[i]@);
    }
}

/// A solution clicks inside the image: every point lies in the slot of its candidate.
pub proof fn lemma_points_in_slots<T: Scalar>(s: Solution<T>, m: Weights<T>, gray: Seq<u8>, i: int)
    requires
        s.solves(m, gray),
        0 <= i < 4,
    ensures
        s.slots[i] < 6,
        geometry::SLOTS[s.slots[i] as int].0 <= s.points[i][0] < geometry::SLOTS[s.slots[i] as int].1,
        geometry::CAND_ROWS.0 <= s.points[i][1] < geometry::CAND_ROWS.1,
{
    lemma_slots_distinct(
        similarity_of(m, gray),
        if i == 3 {
            2
        } else {
            i
        },
        3,
    );
    assert(s.slots@[i] == slots_of(ranked(similarity_of(m, gray), 1296))[i]);
    lemma_center_croppable(gray, s.slots[i] as int);
}

/// What a solution is: the four similarities that it scores, one of each prompt and each of
/// another candidate, have no smaller sum than any other four; and each click point is the
/// pixel nearest to its candidate's click center.
pub proof fn lemma_solution_is_best<T: Scalar>(
    s: Solution<T>,
    m: Weights<T>,
    gray: Seq<u8>,
    a: int,
    b: int,
    c: int,
    d: int,
    i: int,
    k: int,
)
    requires
        ordered::<T>(),
        s.solves(m, gray),
        s.score.above_spec(T::lowest_spec()),
        0 <= a < 6,
        0 <= b < 6,
        0 <= c < 6,
        0 <= d < 6,
        a != b && a != c && a != d && b != c && b != d && c != d,
        0 <= i < 4,
    ensures
        ({
            let (p, q) = (prompts_of::<T>(gray), cands_of::<T>(gray));
            let v = center_of(gray, s.slots[i] as int);
            &&& s.score == m.cosine(p, q, 0, s.slots[0] as int).plus_spec(
                m.cosine(p, q, 1, s.slots[1] as int),
            ).plus_spec(m.cosine(p, q, 2, s.slots[2] as int)).plus_spec(
                m.cosine(p, q, 3, s.slots[3] as int),
            )
            &&& !m.cosine(p, q, 0, a).plus_spec(m.cosine(p, q, 1, b)).plus_spec(
                m.cosine(p, q, 2, c),
            ).plus_spec(m.cosine(p, q, 3, d)).above_spec(s.score)
            &&& s.slots[i] < 6
            &&& forall|j: int| 0 <= j < 4 && j != i ==> #[trigger] s.slots[j] != s.slots[i]
            &&& abs(s.points[i][0] * one() - value(v[0])) <= abs(k * one() - value(v[0]))
            &&& abs(s.points[i][1] * one() - value(v[1])) <= abs(k * one() - value(v[1]))
        }),
{
    let sim = similarity_of(m, gray);
    let slots = s.slots@;
    lemma_score_is_a_sum(sim, slots, s.score);
    lemma_no_larger_sum(sim, slots, s.score, a, b, c, d);
    assert(0 <= slots[0] < 6 && 0 <= slots[1] < 6 && 0 <= slots[2] < 6 && 0 <= slots[3] < 6);
    let t = s.slots[i] as int;
    assert(0 <= slots[i] < 6);
    assert forall|j: int| 0 <= j < 4 && j != i implies #[trigger] s.slots[j] != s.slots[i] by {
        if j < i {
            assert(slots[j] != slots[i]);
        } else {
            assert(slots[i] != slots[j]);
        }
    }
    lemma_center_in_slot(gray, t);
    let (lo, hi) = (geometry::SLOTS[t].0 as int, geometry::SLOTS[t].1 - 1);
    lemma_small_center(center_of(gray, t)[0], lo, hi);
    lemma_small_center(center_of(gray, t)[1], 25, 77);
    lemma_rounds_to_nearest(center_of(gray, t)[0], k);
    lemma_rounds_to_nearest(center_of(gray, t)[1], k);
}

proof fn lemma_small_center(b: u32, lo: int, hi: int)
    requires
        0 <= lo,
        hi <= 250,
        lo * one() <= value(b) <= hi * one(),
    ensures
        -0x8000_0000 * one() <= value(b) < 0x8000_0000 * one(),
{
    vstd::arithmetic::power2::lemma_pow2_pos(149);
    assert(0 <= lo * one() && hi * one() <= 250 * one()) by (nonlinear_arith)
        requires
            0 <= lo,
            hi <= 250,
            0 < one(),
    ;
}

/// The network sees the crops of the image one behind the other, row by row.
pub proof fn lemma_crops_in_order<T: Scalar>(gray: Seq<u8>, k: int, r: int, c: int)
    requires
        0 <= r,
        0 <= c,
        0 <= k,
    ensures
        k < 4 && r < 16 && c < 16 ==> prompts_of::<T>(gray)[256 * k + 16 * r + c]
            == T::of_bits_spec(prompt_pixel(gray, k, r, c)),
        k < 6 && r < 40 && c < 40 ==> cands_of::<T>(gray)[1600 * k + 40 * r + c]
            == T::of_bits_spec(
            cand_pixel(
                gray,
                k,
                rounded_int(center_of(gray, k)[0]),
                rounded_int(center_of(gray, k)[1]),
                r,
                c,
            ),
        ),
{
    if k < 4 && r < 16 && c < 16 {
        let i = 256 * k + 16 * r + c;
        assert(i / 256 == k && i % 256 == 16 * r + c);
        assert((16 * r + c) / 16 == r && i % 16 == c);
    }
    if k < 6 && r < 40 && c < 40 {
        lemma_cands_in_order(gray, centers_of(gray), k, r, c);
    }
}

/// The codes of the C ABI.
pub proof fn lemma_code_call(e: Error, r: i32)
    requires
        call_ensures(Error::code, (e,), r),
    ensures
        e == Error::Arg ==> r == -1,
        e == Error::Jpeg ==> r == -2,
        e == Error::Unsupported ==> r == -3,
        e == Error::Size ==> r == -4,
        e == Error::Model ==> r == -5,
{
}

/// What solving a JPEG answers goes by what decoding it answers: a broken file, one of a kind
/// that is not supported and one of another size are told apart, and nothing else is refused.
pub proof fn lemma_solve_answers<T: Kernel>(
    w: &mut Work<T>,
    m: Model<T>,
    jpeg: &[u8],
    r: Result<Solution<T>, Error>,
)
    requires
        m.wf(),
        call_ensures(Work::<T>::solve, (w, &m, jpeg), r),
    ensures
        r is Ok <==> decoded(jpeg@) is Ok,
        r is Ok ==> Ok::<Seq<u8>, jpeg::Error>(final(w).gray@) == decoded(jpeg@),
        r is Err ==> final(w).gray@ == old(w).gray@,
        r matches Err(e) ==> {
            &&& e == Error::Jpeg <==> decoded(jpeg@) == Err::<Seq<u8>, jpeg::Error>(
                jpeg::Error::Format,
            )
            &&& e == Error::Unsupported <==> decoded(jpeg@) == Err::<Seq<u8>, jpeg::Error>(
                jpeg::Error::Unsupported,
            )
            &&& e == Error::Size <==> decoded(jpeg@) == Err::<Seq<u8>, jpeg::Error>(
                jpeg::Error::Size,
            )
        },
{
}

/// What solving an image answers: the four similarities that it scores, one of each prompt and
/// each of another candidate, have no smaller sum than any other four, and each click point is
/// the rounded click center of its prompt's candidate. The similarities and the centers are
/// those that a call for them gives for the same image.
pub proof fn lemma_solved<T: Kernel>(
    w: &mut Work<T>,
    v: &mut Work<T>,
    m: Model<T>,
    s: Solution<T>,
    t: ([[T; 6]; 4], [[u32; 2]; 6]),
    a: int,
    b: int,
    c: int,
    d: int,
    i: int,
    x: i32,
    y: i32,
)
    requires
        m.wf(),
        ordered::<T>(),
        old(v).gray@ == old(w).gray@,
        call_ensures(Work::<T>::solve_gray, (w, &m), s),
        call_ensures(Work::<T>::similarity, (v, &m), t),
        s.score.above_spec(T::lowest_spec()),
        0 <= a < 6,
        0 <= b < 6,
        0 <= c < 6,
        0 <= d < 6,
        a != b && a != c && a != d && b != c && b != d && c != d,
        0 <= i < 4,
        call_ensures(round_half_even, (t.1[s.slots[i] as int][0],), x),
        call_ensures(round_half_even, (t.1[s.slots[i] as int][1],), y),
    ensures
        ({
            let sim = t.0;
            let sum = sim[0][a].plus_spec(sim[1][b]).plus_spec(sim[2][c]).plus_spec(sim[3][d]);
            let (j, k, l, n) = (s.slots[0], s.slots[1], s.slots[2], s.slots[3]);
            &&& j < 6 && k < 6 && l < 6 && n < 6
            &&& j != k && j != l && j != n && k != l && k != n && l != n
            &&& s.score == sim[0][j as int].plus_spec(sim[1][k as int]).plus_spec(
                sim[2][l as int],
            ).plus_spec(sim[3][n as int])
            &&& !sum.above_spec(s.score)
            &&& s.points[i][0] == x
            &&& s.points[i][1] == y
        }),
{
    let sim = similarity_of(m@, old(w).gray@);
    lemma_score_is_a_sum(sim, s.slots@, s.score);
    lemma_no_larger_sum(sim, s.slots@, s.score, a, b, c, d);
    assert(grid_of(t.0) == sim);
    assert forall|p: int, q: int| 0 <= p < 4 && 0 <= q < 6 implies #[trigger] sim[p][q]
        == t.0[p][q] by {
        assert(grid_of(t.0)[p] == t.0[p]@);
    }
    assert(0 <= s.slots@[0] < 6 && 0 <= s.slots@[1] < 6 && 0 <= s.slots@[2] < 6 && 0 <= s.slots@[3]
        < 6);
    assert(s.slots@[0] != s.slots@[1] && s.slots@[0] != s.slots@[2] && s.slots@[0] != s.slots@[3]);
    assert(s.slots@[1] != s.slots@[2] && s.slots@[1] != s.slots@[3] && s.slots@[2] != s.slots@[3]);
    let z = s.slots[i] as int;
    assert(0 <= s.slots@[i] < 6);
    assert(points_of(t.1)[z] == t.1[z]@);
    assert(centers_of(old(w).gray@)[z] == center_of(old(w).gray@, z));
    assert(t.1[z][0] == t.1[z]@[0] && t.1[z][1] == t.1[z]@[1]);
}

/// Spare buffers are the ones that a call takes, and they are gone for the next one, which gets
/// new ones with a black image.
pub proof fn lemma_buffers_taken<T: Kernel>(
    spare: &mut Option<Work<T>>,
    m: Model<T>,
    w: Work<T>,
    i: int,
)
    requires
        m.wf(),
        call_ensures(Work::<T>::take::<T>, (spare, &m), w),
    ensures
        *final(spare) is None,
        *old(spare) matches Some(s) ==> w == s,
        *old(spare) is None && 0 <= i < 20000 ==> w.gray@.len() == 20000 && w.gray@[i] == 0,
{
}

/// A model's weights as numbers are the numbers with the same bit patterns, one for one.
pub proof fn lemma_numbers_call<T: Scalar>(m: Model<u32>, r: Model<T>, i: int)
    requires
        m.wf(),
        call_ensures(Model::<u32>::numbers::<T>, (&m,), r),
    ensures
        r.width == m.width,
        r.dim == m.dim,
        r.buf@.len() == m.buf@.len(),
        0 <= i < m.buf@.len() ==> r.buf@[i] == T::of_bits_spec(m.buf@[i]),
{
}

/// Decoding fills the image that is solved, and leaves it alone where the file is refused.
pub proof fn lemma_decode_call<T: Kernel>(
    w: &mut Work<T>,
    jpeg: &[u8],
    r: Result<(), Error>,
    scratch: &mut [u8],
    gray: &mut [u8],
    q: Result<(), jpeg::Error>,
)
    requires
        old(w).gray@.len() == 20000,
        old(gray)@ == old(w).gray@,
        call_ensures(Work::<T>::decode, (w, jpeg), r),
        call_ensures(jpeg::decode, (jpeg, scratch, gray), q),
    ensures
        final(w).gray@ == final(gray)@,
        r is Ok <==> q is Ok,
        q == Err::<(), jpeg::Error>(jpeg::Error::Format) ==> r == Err::<(), Error>(Error::Jpeg),
        q == Err::<(), jpeg::Error>(jpeg::Error::Unsupported) ==> r == Err::<(), Error>(
            Error::Unsupported,
        ),
        q == Err::<(), jpeg::Error>(jpeg::Error::Size) ==> r == Err::<(), Error>(Error::Size),
{
    if q is Ok {
        assert(final(gray)@ =~= final(w).gray@);
    }
}

} // verus!
