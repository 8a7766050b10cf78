//! The FrodoPIR backend.
use std::collections::VecDeque;
use vstd::prelude::*;

use crate::arith;
use crate::backend::edits;
use crate::backend::frodo::hint::{compute_hint, compute_hint_parallel};
use crate::backend::frodo::params::{FrodoConfig, FrodoParams};
use crate::backend::frodo::patching;
use crate::backend::frodo::sampler;
use crate::backend::frodo::sampler::{sample_a, sample_a_parallel, sample_ternary_into};
use crate::backend::frodo::scaling;
use crate::backend::frodo::scaling::{round_p_to_q, round_q_to_p};
use crate::backend::matvec;
use crate::backend::matvec::{matvec_accumulate, matvec_rows_accumulate};
use crate::backend::prg::ThreadWords;
use crate::backend::{
    BackendWireSize, HintPatchMode, IncrementalPirBackend, IndexPirBackend, ParallelSetupBackend,
    PrecomputingPirBackend, ResponseRewind,
};
use crate::wire::hint_delta;
use crate::wire::sparse::Edits;

verus! {

// ---------------------------------------------------------------- types
/// The FrodoPIR backend.
#[derive(Clone, Copy, Debug, Default, PartialEq, Eq)]
pub struct FrodoPirBackend;

/// Public parameters of one segment.
#[derive(Clone, Copy, Debug)]
pub struct FrodoServerParams {
    /// LWE parameters.
    pub params: FrodoParams,
    /// Rows of the segment.
    pub n_rows: u32,
    /// Cells per row.
    pub row_width: u32,
}

/// The public matrix of one segment, row-major, `n_rows` by `lwe_dim`.
#[derive(Debug)]
pub struct FrodoHintMaterial {
    /// The cells of the matrix.
    pub a: Vec<u32>,
}

impl Default for FrodoHintMaterial {
    fn default() -> (m: Self)
        ensures
            m.a@.len() == 0,
    {
        FrodoHintMaterial { a: Vec::new() }
    }
}

/// The hint of one segment, row-major, `lwe_dim` by `row_width`.
#[derive(Debug, PartialEq, Eq)]
pub struct FrodoHint {
    /// The cells of the hint.
    pub data: Vec<u32>,
}

impl Clone for FrodoHint {
    fn clone(&self) -> (h: Self)
        ensures
            h.data@ == self.data@,
    {
        let data: Vec<u32> = self.data.clone();
        proof {
            assert(data@ =~= self.data@);
        }
        FrodoHint { data }
    }
}

/// A query: one residue per row.
#[derive(Debug)]
pub struct FrodoQuery {
    /// The residues.
    pub b: Vec<u32>,
}

impl Clone for FrodoQuery {
    fn clone(&self) -> (r: Self)
        ensures
            r.b@ == self.b@,
    {
        let b: Vec<u32> = self.b.clone();
        proof {
            assert(b@ =~= self.b@);
        }
        FrodoQuery { b }
    }
}

/// A response: one residue per column.
#[derive(Debug)]
pub struct FrodoResponse {
    /// The residues.
    pub a: Vec<u32>,
}

impl Clone for FrodoResponse {
    fn clone(&self) -> (r: Self)
        ensures
            r.a@ == self.a@,
    {
        let a: Vec<u32> = self.a.clone();
        proof {
            assert(a@ =~= self.a@);
        }
        FrodoResponse { a }
    }
}

/// Material of one query: the secret, the query without its row marker, and the mask that
/// the secret puts on the response, where it was computed ahead of time.
struct PreparedSlot {
    secret: Vec<u32>,
    b: Vec<u32>,
    c: Option<Vec<u32>>,
}

/// The contents of one slot.
pub struct SlotView {
    /// The secret.
    pub secret: Seq<u32>,
    /// The query without its row marker.
    pub b: Seq<u32>,
    /// The mask, where it is known.
    pub c: Option<Seq<u32>>,
}

impl PreparedSlot {
    spec fn view(&self) -> SlotView {
        SlotView {
            secret: self.secret@,
            b: self.b@,
            c: match self.c {
                Some(c) => Some(c@),
                None => None,
            },
        }
    }
}

/// Client state of one segment.
pub struct FrodoClientState {
    /// Public parameters.
    pub params: FrodoServerParams,
    /// The public matrix.
    pub hint_material: FrodoHintMaterial,
    /// The client's copy of the hint.
    pub hint: FrodoHint,
    prepared: VecDeque<PreparedSlot>,
    in_flight: Option<PreparedSlot>,
}

impl FrodoClientState {
    /// The public parameters.
    pub closed spec fn server_params(self) -> FrodoServerParams {
        self.params
    }

    /// The cells of the public matrix.
    pub closed spec fn matrix(self) -> Seq<u32> {
        self.hint_material.a@
    }

    /// The cells of the hint.
    pub closed spec fn hint_cells(self) -> Seq<u32> {
        self.hint.data@
    }

    /// The prepared slots, first in line first.
    pub closed spec fn slots(self) -> Seq<SlotView> {
        Seq::new(self.prepared@.len(), |i: int| self.prepared@[i].view())
    }

    /// The slot in flight.
    pub closed spec fn pending(self) -> Option<SlotView> {
        match self.in_flight {
            Some(s) => Some(s.view()),
            None => None,
        }
    }

    /// Number of prepared slots.
    pub fn prepared_len(&self) -> (n: usize)
        ensures
            n == self.slots().len(),
    {
        self.prepared.len()
    }

    /// Number of slots in flight: zero or one.
    pub fn in_flight_len(&self) -> (n: usize)
        ensures
            n == if self.pending() is Some {
                1int
            } else {
                0
            },
    {
        match &self.in_flight {
            Some(_) => 1,
            None => 0,
        }
    }

    /// The secret of prepared slot `i`.
    pub fn prepared_secret(&self, i: usize) -> (s: &[u32])
        requires
            i < self.slots().len(),
        ensures
            s@ == self.slots()[i as int].secret,
    {
        self.prepared[i].secret.as_slice()
    }

    /// The query of prepared slot `i`, without its row marker.
    pub fn prepared_query(&self, i: usize) -> (b: &[u32])
        requires
            i < self.slots().len(),
        ensures
            b@ == self.slots()[i as int].b,
    {
        self.prepared[i].b.as_slice()
    }

    /// The mask of prepared slot `i`, where it is known.
    pub fn prepared_mask(&self, i: usize) -> (c: Option<&Vec<u32>>)
        requires
            i < self.slots().len(),
        ensures
            c is Some <==> self.slots()[i as int].c is Some,
            c is Some ==> c->0@ == self.slots()[i as int].c->0,
    {
        match &self.prepared[i].c {
            Some(c) => Some(c),
            None => None,
        }
    }

    /// The mask of the slot in flight, where there is one and its mask is known.
    pub fn in_flight_mask(&self) -> (c: Option<&Vec<u32>>)
        ensures
            c is Some <==> self.pending() is Some && self.pending()->0.c is Some,
            c is Some ==> c->0@ == self.pending()->0.c->0,
    {
        match &self.in_flight {
            Some(slot) => match &slot.c {
                Some(c) => Some(c),
                None => None,
            },
            None => None,
        }
    }
}

// ---------------------------------------------------------------- model
/// Whether the matrices of a segment fit in memory and its cells leave room for noise.
pub open spec fn params_ok(p: FrodoServerParams) -> bool {
    &&& p.n_rows * p.params.lwe_dim <= usize::MAX
    &&& p.params.lwe_dim * p.row_width <= usize::MAX
    &&& 1 <= p.params.plaintext_bits <= 31
}

/// The public matrix of a segment.
pub open spec fn public_matrix(p: FrodoServerParams) -> Seq<u32> {
    sampler::matrix_a(p.params.seed@, p.n_rows as nat, p.params.lwe_dim as nat)
}

/// All entries are residues of -1, 0 or 1.
pub open spec fn all_ternary(s: Seq<u32>) -> bool {
    forall|i: int| 0 <= i < s.len() ==> sampler::is_ternary(#[trigger] s[i])
}

/// The slot's query is the public matrix times its secret plus the error `e`, all ternary.
pub open spec fn query_part(p: FrodoServerParams, s: SlotView, e: Seq<u32>) -> bool {
    &&& s.secret.len() == p.params.lwe_dim
    &&& e.len() == p.n_rows
    &&& all_ternary(s.secret)
    &&& all_ternary(e)
    &&& s.b == matvec::matvec_rows(e, public_matrix(p), s.secret)
}

/// A slot is consistent with the parameters and the hint `h`.
pub open spec fn slot_ok(p: FrodoServerParams, h: Seq<u32>, s: SlotView) -> bool {
    &&& exists|e: Seq<u32>| #[trigger] query_part(p, s, e)
    &&& s.c is Some ==> s.c->0 == patching::mask(
        s.secret,
        h,
        p.params.lwe_dim as int,
        p.row_width as int,
    )
}

/// A client's state is consistent: the matrix is that of the parameters, the hint has its
/// shape, and so have the slots, whose masks belong to the hint.
pub open spec fn state_ok(st: FrodoClientState) -> bool {
    let p = st.server_params();
    &&& params_ok(p)
    &&& st.matrix() == public_matrix(p)
    &&& st.hint_cells().len() == p.params.lwe_dim * p.row_width
    &&& forall|i: int|
        0 <= i < st.slots().len() ==> slot_ok(p, st.hint_cells(), #[trigger] st.slots()[i])
    &&& st.pending() is Some ==> slot_ok(p, st.hint_cells(), st.pending()->0)
}

/// Two states that differ in their slots only.
pub open spec fn same_segment(a: FrodoClientState, b: FrodoClientState) -> bool {
    &&& a.server_params() == b.server_params()
    &&& a.matrix() == b.matrix()
    &&& a.hint_cells() == b.hint_cells()
}

/// The query for `row` that a slot gives: its residues, with the scale added at `row`.
pub open spec fn marked(b: Seq<u32>, row: int, plaintext_bits: u32) -> Seq<u32> {
    b.update(row, arith::wrap(b[row] + scaling::delta(plaintext_bits)))
}

/// The query vector times the database.
pub open spec fn answer(b: Seq<u32>, db: Seq<u32>, width: int) -> Seq<u32> {
    Seq::new(
        width as nat,
        |j: int| arith::wrap(arith::dot(b, 0, 1, db, j, width, 0, b.len() as int)),
    )
}

/// The cells that a response decodes to under a secret and a hint.
pub open spec fn decode(
    response: Seq<u32>,
    secret: Seq<u32>,
    h: Seq<u32>,
    lwe_dim: int,
    width: int,
    plaintext_bits: u32,
) -> Seq<u32> {
    Seq::new(
        width as nat,
        |j: int|
            scaling::rounded(
                arith::wrap(response[j] - patching::mask(secret, h, lwe_dim, width)[j]),
                plaintext_bits,
            ),
    )
}

// ---------------------------------------------------------------- slots
/// Calls `rand::rng` and `fill_bytes` on the generator; nothing is claimed of the bytes.
#[verifier::external_body]
fn random_seed() -> (seed: [u8; 16]) {
    let mut seed = [0u8; 16];
    rand::RngCore::fill_bytes(&mut rand::rng(), &mut seed);
    seed
}

/// A vector of random ternary residues.
fn random_ternary(n: usize) -> (v: Vec<u32>)
    ensures
        v@.len() == n,
        all_ternary(v@),
{
    let mut v: Vec<u32> = vec![0; n];
    let ghost zero = v@;
    let mut rng: ThreadWords = ThreadWords;
    sample_ternary_into(&mut rng, v.as_mut_slice());
    proof {
        let words = choose|words: Seq<u32>|
            #[trigger] sampler::overwritten(zero, sampler::samples(words), v@);
        let xs = sampler::samples(words);
        assert(sampler::overwritten(zero, xs, v@));
        sampler::law_samples_ternary(words);
        assert forall|i: int| 0 <= i < v@.len() implies sampler::is_ternary(
            #[trigger] v@[i],
        ) by {
            let m = crate::backend::parallel::min(zero.len() as int, xs.len() as int);
            if i < m {
                assert(v@[i] == xs[i]);
            } else {
                assert(v@[i] == zero[i]);
            }
        }
    }
    v
}

/// The slot of a secret and an error.
fn make_slot(p: &FrodoServerParams, a: &[u32], secret: Vec<u32>, error: Vec<u32>) -> (s: PreparedSlot)
    requires
        a@ == public_matrix(*p),
        secret@.len() == p.params.lwe_dim,
        error@.len() == p.n_rows,
        all_ternary(secret@),
        all_ternary(error@),
    ensures
        s.view().secret == secret@,
        s.view().c is None,
        query_part(*p, s.view(), error@),
{
    let mut b: Vec<u32> = error;
    matvec_rows_accumulate(b.as_mut_slice(), a, secret.as_slice());
    PreparedSlot { secret, b, c: None }
}

/// A slot with a random secret and error.
fn sample_slot(p: &FrodoServerParams, a: &[u32]) -> (s: PreparedSlot)
    requires
        a@ == public_matrix(*p),
    ensures
        s.view().c is None,
        exists|e: Seq<u32>| #[trigger] query_part(*p, s.view(), e),
{
    let secret: Vec<u32> = random_ternary(p.params.lwe_dim as usize);
    let error: Vec<u32> = random_ternary(p.n_rows as usize);
    make_slot(p, a, secret, error)
}

/// The secret times the hint.
fn compute_c(secret: &[u32], hint: &[u32], row_width: usize) -> (c: Vec<u32>)
    requires
        hint@.len() == secret@.len() * row_width,
    ensures
        c@ == patching::mask(secret@, hint@, secret@.len() as int, row_width as int),
{
    let mut c: Vec<u32> = vec![0; row_width];
    matvec_accumulate(c.as_mut_slice(), hint, secret);
    proof {
        assert(c@ =~= patching::mask(secret@, hint@, secret@.len() as int, row_width as int));
    }
    c
}

/// Negated coefficients negate the dot product.
proof fn lemma_dot_neg(x: Seq<u32>, neg: Seq<u32>, y: Seq<u32>, j: int, w: int, hi: int)
    requires
        0 <= hi <= x.len() == neg.len(),
        forall|k: int| 0 <= k < x.len() ==> #[trigger] neg[k] == arith::wrap(-(x[k] as int)),
    ensures
        arith::wrap(arith::dot(neg, 0, 1, y, j, w, 0, hi)) == arith::wrap(
            -arith::dot(x, 0, 1, y, j, w, 0, hi),
        ),
    decreases hi,
{
    if hi > 0 {
        let k = hi - 1;
        lemma_dot_neg(x, neg, y, j, w, k);
        let a = x[k] as int;
        let b = y[j + k * w] as int;
        assert(arith::term(x, 0, 1, y, j, w, k) == a * b);
        assert(arith::term(neg, 0, 1, y, j, w, k) == neg[k] * b);
        arith::lemma_wrap_mul(-a, b);
        assert((-a) * b == -(a * b)) by (nonlinear_arith);
        let d = arith::dot(x, 0, 1, y, j, w, 0, k);
        arith::lemma_wrap_cong(arith::dot(neg, 0, 1, y, j, w, 0, k), -d, neg[k] * b);
        arith::lemma_wrap_cong(neg[k] * b, -(a * b), -d);
    }
}

/// Takes the secret times the hint off the response.
fn unmask(response: &[u32], secret: &[u32], hint: &[u32]) -> (residual: Vec<u32>)
    requires
        hint@.len() == secret@.len() * response@.len(),
    ensures
        residual@.len() == response@.len(),
        forall|j: int|
            0 <= j < response@.len() ==> #[trigger] residual@[j] == arith::wrap(
                response@[j] - patching::mask(
                    secret@,
                    hint@,
                    secret@.len() as int,
                    response@.len() as int,
                )[j],
            ),
{
    let n: usize = secret.len();
    let mut neg: Vec<u32> = Vec::with_capacity(n);
    let mut k: usize = 0;
    while k < n
        invariant
            k <= n == secret@.len(),
            neg@.len() == k,
            forall|x: int|
                0 <= x < k ==> #[trigger] neg@[x] == arith::wrap(-(secret@[x] as int)),
        decreases n - k,
    {
        neg.push(0u32.wrapping_sub(secret[k]));
        k = k + 1;
    }
    let mut residual: Vec<u32> = vstd::slice::slice_to_vec(response);
    matvec_accumulate(residual.as_mut_slice(), hint, neg.as_slice());
    proof {
        let l = n as int;
        let w = response@.len() as int;
        assert forall|j: int| 0 <= j < w implies #[trigger] residual@[j] == arith::wrap(
            response@[j] - patching::mask(secret@, hint@, l, w)[j],
        ) by {
            let r = response@[j] as int;
            let d = arith::dot(secret@, 0, 1, hint@, j, w, 0, l);
            lemma_dot_neg(secret@, neg@, hint@, j, w, l);
            arith::lemma_wrap_cong(arith::dot(neg@, 0, 1, hint@, j, w, 0, l), -d, r);
            arith::lemma_wrap_add(r, d);
        }
    }
    residual
}

/// Takes a known mask off the response.
fn subtract_mask(response: &[u32], c: &[u32]) -> (residual: Vec<u32>)
    requires
        c@.len() == response@.len(),
    ensures
        residual@.len() == response@.len(),
        forall|j: int|
            0 <= j < response@.len() ==> #[trigger] residual@[j] == arith::wrap(
                response@[j] - c@[j],
            ),
{
    let n: usize = response.len();
    let mut residual: Vec<u32> = Vec::with_capacity(n);
    let mut j: usize = 0;
    while j < n
        invariant
            j <= n == response@.len() == c@.len(),
            residual@.len() == j,
            forall|x: int|
                0 <= x < j ==> #[trigger] residual@[x] == arith::wrap(response@[x] - c@[x]),
        decreases n - j,
    {
        residual.push(response[j].wrapping_sub(c[j]));
        j = j + 1;
    }
    residual
}

// ---------------------------------------------------------------- setup
/// Sets a segment up with a given seed.
pub fn setup_with_seed(
    config: &FrodoConfig,
    db: &[u32],
    n_rows: u32,
    row_width: u32,
    plaintext_bits: u32,
    seed: [u8; 16],
) -> (out: (FrodoServerParams, FrodoHintMaterial, FrodoHint))
    requires
        FrodoPirBackend::can_set_up(*config, db@, n_rows, row_width, plaintext_bits),
    ensures
        FrodoPirBackend::is_set_up(
            *config,
            db@,
            n_rows,
            row_width,
            plaintext_bits,
            out.0,
            out.1,
            out.2,
        ),
        out.0.params.seed == seed,
{
    let params: FrodoParams = FrodoParams::new(config.lwe_dim, plaintext_bits, seed);
    let a: Vec<u32> = sample_a(&seed, n_rows, config.lwe_dim);
    let data: Vec<u32> = compute_hint(a.as_slice(), db, n_rows, config.lwe_dim, row_width);
    (
        FrodoServerParams { params, n_rows, row_width },
        FrodoHintMaterial { a },
        FrodoHint { data },
    )
}

/// Sets a segment up with a given seed, split over `threads` workers.
pub fn setup_with_seed_parallel(
    config: &FrodoConfig,
    db: &[u32],
    n_rows: u32,
    row_width: u32,
    plaintext_bits: u32,
    seed: [u8; 16],
    threads: usize,
) -> (out: (FrodoServerParams, FrodoHintMaterial, FrodoHint))
    requires
        FrodoPirBackend::can_set_up(*config, db@, n_rows, row_width, plaintext_bits),
    ensures
        FrodoPirBackend::is_set_up(
            *config,
            db@,
            n_rows,
            row_width,
            plaintext_bits,
            out.0,
            out.1,
            out.2,
        ),
        out.0.params.seed == seed,
{
    let params: FrodoParams = FrodoParams::new(config.lwe_dim, plaintext_bits, seed);
    let a: Vec<u32> = sample_a_parallel(&seed, n_rows, config.lwe_dim, threads);
    let data: Vec<u32> = compute_hint_parallel(
        a.as_slice(),
        db,
        n_rows,
        config.lwe_dim,
        row_width,
        threads,
    );
    (
        FrodoServerParams { params, n_rows, row_width },
        FrodoHintMaterial { a },
        FrodoHint { data },
    )
}

/// A client with the given material and an empty queue.
fn fresh_client(params: &FrodoServerParams, hint: &FrodoHint, a: Vec<u32>) -> (state:
    FrodoClientState)
    requires
        params_ok(*params),
        hint.data@.len() == params.params.lwe_dim * params.row_width,
        a@ == public_matrix(*params),
    ensures
        state_ok(state),
        FrodoPirBackend::is_fresh(state, *params, *hint),
{
    let state = FrodoClientState {
        params: *params,
        hint_material: FrodoHintMaterial { a },
        hint: hint.clone(),
        prepared: VecDeque::new(),
        in_flight: None,
    };
    proof {
        assert(state.slots() =~= Seq::empty());
    }
    state
}

/// Queues the slot of a given secret and error.
pub fn queue_slot(state: &mut FrodoClientState, secret: Vec<u32>, error: Vec<u32>)
    requires
        state_ok(*old(state)),
        secret@.len() == old(state).server_params().params.lwe_dim,
        error@.len() == old(state).server_params().n_rows,
        all_ternary(secret@),
        all_ternary(error@),
    ensures
        state_ok(*final(state)),
        same_segment(*old(state), *final(state)),
        final(state).pending() == old(state).pending(),
        final(state).slots() == old(state).slots().push(
            (SlotView {
                secret: secret@,
                b: matvec::matvec_rows(error@, public_matrix(old(state).server_params()), secret@),
                c: None,
            }),
        ),
{
    let slot: PreparedSlot = make_slot(
        &state.params,
        state.hint_material.a.as_slice(),
        secret,
        error,
    );
    push_slot(state, slot);
}

/// Queues a slot.
fn push_slot(state: &mut FrodoClientState, slot: PreparedSlot)
    requires
        state_ok(*old(state)),
        slot_ok(old(state).server_params(), old(state).hint_cells(), slot.view()),
    ensures
        state_ok(*final(state)),
        same_segment(*old(state), *final(state)),
        final(state).pending() == old(state).pending(),
        final(state).slots() == old(state).slots().push(slot.view()),
{
    let ghost s0 = state.slots();
    state.prepared.push_back(slot);
    proof {
        assert(state.slots() =~= s0.push(slot.view()));
        assert forall|i: int| 0 <= i < state.slots().len() implies slot_ok(
            state.params,
            state.hint.data@,
            #[trigger] state.slots()[i],
        ) by {
            if i < s0.len() {
                assert(state.slots()[i] == s0[i]);
            }
        }
    }
}

impl IndexPirBackend for FrodoPirBackend {
    type Config = FrodoConfig;

    type ServerParams = FrodoServerParams;

    type HintMaterial = FrodoHintMaterial;

    type Hint = FrodoHint;

    type ClientState = FrodoClientState;

    type Query = FrodoQuery;

    type Response = FrodoResponse;

    open spec fn can_set_up(
        config: FrodoConfig,
        db: Seq<u32>,
        n_rows: u32,
        row_width: u32,
        plaintext_bits: u32,
    ) -> bool {
        &&& db.len() == n_rows * row_width
        &&& n_rows * config.lwe_dim <= usize::MAX
        &&& config.lwe_dim * row_width <= usize::MAX
    }

    open spec fn is_set_up(
        config: FrodoConfig,
        db: Seq<u32>,
        n_rows: u32,
        row_width: u32,
        plaintext_bits: u32,
        params: FrodoServerParams,
        material: FrodoHintMaterial,
        hint: FrodoHint,
    ) -> bool {
        &&& params.params.lwe_dim == config.lwe_dim
        &&& params.params.plaintext_bits == plaintext_bits
        &&& params.n_rows == n_rows
        &&& params.row_width == row_width
        &&& material.a@ == public_matrix(params)
        &&& edits::is_hint(
            hint.data@,
            material.a@,
            db,
            config.lwe_dim as int,
            row_width as int,
            n_rows as int,
        )
    }

    open spec fn matrix_shape(params: FrodoServerParams) -> (u32, u32) {
        (params.n_rows, params.row_width)
    }

    open spec fn usable(params: FrodoServerParams) -> bool {
        params_ok(params)
    }

    open spec fn is_expansion(params: FrodoServerParams, material: FrodoHintMaterial) -> bool {
        material.a@ == public_matrix(params)
    }

    open spec fn hint_fits(params: FrodoServerParams, hint: FrodoHint) -> bool {
        hint.data@.len() == params.params.lwe_dim * params.row_width
    }

    open spec fn client_ok(state: FrodoClientState) -> bool {
        state_ok(state)
    }

    open spec fn is_fresh(
        state: FrodoClientState,
        params: FrodoServerParams,
        hint: FrodoHint,
    ) -> bool {
        &&& state.server_params() == params
        &&& state.matrix() == public_matrix(params)
        &&& state.hint_cells() == hint.data@
        &&& state.slots().len() == 0
        &&& state.pending() is None
    }

    open spec fn has_row(state: FrodoClientState, row: u32) -> bool {
        row < state.server_params().n_rows
    }

    open spec fn is_query(
        before: FrodoClientState,
        row: u32,
        query: FrodoQuery,
        after: FrodoClientState,
    ) -> bool {
        &&& same_segment(before, after)
        &&& after.pending() matches Some(slot) && {
            &&& query.b@ == marked(
                slot.b,
                row as int,
                before.server_params().params.plaintext_bits,
            )
            &&& if before.slots().len() > 0 {
                &&& slot == before.slots()[0]
                &&& after.slots() == before.slots().skip(1)
            } else {
                &&& slot.c is None
                &&& after.slots().len() == 0
            }
        }
    }

    open spec fn can_answer(
        params: FrodoServerParams,
        db: Seq<u32>,
        n_rows: u32,
        row_width: u32,
        query: FrodoQuery,
    ) -> bool {
        &&& query.b@.len() == n_rows
        &&& db.len() == n_rows * row_width
    }

    open spec fn is_answer(
        params: FrodoServerParams,
        db: Seq<u32>,
        n_rows: u32,
        row_width: u32,
        query: FrodoQuery,
        response: FrodoResponse,
    ) -> bool {
        response.a@ == answer(query.b@, db, row_width as int)
    }

    open spec fn can_decode(state: FrodoClientState, response: FrodoResponse) -> bool {
        &&& state.pending() is Some
        &&& response.a@.len() == state.server_params().row_width
    }

    open spec fn decoded(state: FrodoClientState, response: FrodoResponse) -> Seq<u32> {
        decode(
            response.a@,
            state.pending()->0.secret,
            state.hint_cells(),
            state.server_params().params.lwe_dim as int,
            state.server_params().row_width as int,
            state.server_params().params.plaintext_bits,
        )
    }

    fn server_setup(
        config: &FrodoConfig,
        db: &[u32],
        n_rows: u32,
        row_width: u32,
        plaintext_bits: u32,
    ) -> (out: (FrodoServerParams, FrodoHintMaterial, FrodoHint)) {
        setup_with_seed(config, db, n_rows, row_width, plaintext_bits, random_seed())
    }

    fn db_matrix_shape(params: &FrodoServerParams) -> (shape: (u32, u32)) {
        (params.n_rows, params.row_width)
    }

    fn expand_hint_material(params: &FrodoServerParams) -> (material: FrodoHintMaterial) {
        let a: Vec<u32> = sample_a(&params.params.seed, params.n_rows, params.params.lwe_dim);
        FrodoHintMaterial { a }
    }

    fn client_setup(params: &FrodoServerParams, hint: &FrodoHint) -> (state: FrodoClientState) {
        let material: FrodoHintMaterial = Self::expand_hint_material(params);
        fresh_client(params, hint, material.a)
    }

    fn client_query(state: &mut FrodoClientState, row: u32) -> (query: FrodoQuery) {
        let ghost before = *state;
        let ghost s0 = state.slots();
        if state.prepared.len() == 0 {
            let slot: PreparedSlot = sample_slot(
                &state.params,
                state.hint_material.a.as_slice(),
            );
            push_slot(state, slot);
        }
        let ghost s1 = state.slots();
        let ghost prepared = state.prepared@;
        let slot: PreparedSlot = state.prepared.pop_front().unwrap();
        proof {
            assert(slot == prepared[0]);
            assert(slot.view() == s1[0]);
            assert(state.prepared@ =~= prepared.skip(1));
            assert(state.slots() =~= s1.skip(1));
        }
        let mut b: Vec<u32> = slot.b.clone();
        assert(b@ =~= slot.b@);
        let delta: u32 = round_p_to_q(1, state.params.params.plaintext_bits);
        let at: usize = row as usize;
        proof {
            scaling::lemma_delta(state.params.params.plaintext_bits);
            vstd::arithmetic::div_mod::lemma_small_mod(
                scaling::delta(state.params.params.plaintext_bits) as nat,
                0x1_0000_0000,
            );
        }
        let v: u32 = b[at].wrapping_add(delta);
        b.set(at, v);
        state.in_flight = Some(slot);
        proof {
            let p = state.params;
            assert(slot_ok(p, state.hint.data@, s1[0]));
            assert forall|i: int| 0 <= i < state.slots().len() implies slot_ok(
                p,
                state.hint.data@,
                #[trigger] state.slots()[i],
            ) by {
                assert(state.slots()[i] == s1[i + 1]);
            }
            if s0.len() > 0 {
                assert(s1 == s0);
            }
        }
        FrodoQuery { b }
    }

    fn server_answer(
        params: &FrodoServerParams,
        db: &[u32],
        n_rows: u32,
        row_width: u32,
        query: &FrodoQuery,
    ) -> (response: FrodoResponse) {
        let mut a: Vec<u32> = vec![0; row_width as usize];
        matvec_accumulate(a.as_mut_slice(), db, query.b.as_slice());
        proof {
            assert(a@ =~= answer(query.b@, db@, row_width as int));
        }
        FrodoResponse { a }
    }

    fn client_decode(state: &FrodoClientState, response: &FrodoResponse) -> (cells: Vec<u32>) {
        let plaintext_bits: u32 = state.params.params.plaintext_bits;
        let slot: &PreparedSlot = state.in_flight.as_ref().unwrap();
        proof {
            assert(slot.view() == state.pending()->0);
            let e = choose|e: Seq<u32>| #[trigger] query_part(state.params, slot.view(), e);
            assert(query_part(state.params, slot.view(), e));
        }
        let residual: Vec<u32> = match &slot.c {
            Some(c) => subtract_mask(response.a.as_slice(), c.as_slice()),
            None => unmask(
                response.a.as_slice(),
                slot.secret.as_slice(),
                state.hint.data.as_slice(),
            ),
        };
        let n: usize = residual.len();
        let mut cells: Vec<u32> = Vec::with_capacity(n);
        let mut j: usize = 0;
        while j < n
            invariant
                j <= n == residual@.len(),
                1 <= plaintext_bits <= 31,
                cells@.len() == j,
                forall|x: int|
                    0 <= x < j ==> #[trigger] cells@[x] == scaling::rounded(
                        residual@[x],
                        plaintext_bits,
                    ),
            decreases n - j,
        {
            cells.push(round_q_to_p(residual[j], plaintext_bits));
            j = j + 1;
        }
        proof {
            assert(cells@ =~= Self::decoded(*state, *response));
        }
        cells
    }
}

impl ParallelSetupBackend for FrodoPirBackend {
    fn server_setup_parallel(
        config: &FrodoConfig,
        db: &[u32],
        n_rows: u32,
        row_width: u32,
        plaintext_bits: u32,
        threads: usize,
    ) -> (out: (FrodoServerParams, FrodoHintMaterial, FrodoHint)) {
        setup_with_seed_parallel(
            config,
            db,
            n_rows,
            row_width,
            plaintext_bits,
            random_seed(),
            threads,
        )
    }

    fn expand_hint_material_parallel(params: &FrodoServerParams, threads: usize) -> (material:
        FrodoHintMaterial) {
        let a: Vec<u32> = sample_a_parallel(
            &params.params.seed,
            params.n_rows,
            params.params.lwe_dim,
            threads,
        );
        FrodoHintMaterial { a }
    }

    fn client_setup_parallel(
        params: &FrodoServerParams,
        hint: &FrodoHint,
        threads: usize,
    ) -> (state: FrodoClientState) {
        let material: FrodoHintMaterial = Self::expand_hint_material_parallel(params, threads);
        fresh_client(params, hint, material.a)
    }
}

impl BackendWireSize for FrodoPirBackend {
    open spec fn query_size(q: FrodoQuery) -> nat {
        q.b@.len() * 4
    }

    open spec fn response_size(r: FrodoResponse) -> nat {
        r.a@.len() * 4
    }

    open spec fn hint_size(h: FrodoHint) -> nat {
        h.data@.len() * 4
    }

    open spec fn server_params_size(p: FrodoServerParams) -> nat {
        32
    }

    fn query_byte_size(q: &FrodoQuery) -> (n: usize) {
        q.b.len() * 4
    }

    fn response_byte_size(r: &FrodoResponse) -> (n: usize) {
        r.a.len() * 4
    }

    fn hint_byte_size(h: &FrodoHint) -> (n: usize) {
        h.data.len() * 4
    }

    fn server_params_byte_size(p: &FrodoServerParams) -> (n: usize) {
        // Dimension, plaintext bits and seed; rows and row width.
        let frodo_params: usize = 4 + 4 + 16;
        let dims: usize = 4 + 4;
        frodo_params + dims
    }
}

// ---------------------------------------------------------------- precomputation
/// A slot with its mask attached.
pub open spec fn with_mask(p: FrodoServerParams, h: Seq<u32>, s: SlotView) -> SlotView {
    SlotView {
        c: Some(patching::mask(s.secret, h, p.params.lwe_dim as int, p.row_width as int)),
        ..s
    }
}

/// A slot after the hint became `h`: a mask that was attached is the one under `h`.
pub open spec fn remasked(p: FrodoServerParams, h: Seq<u32>, s: SlotView) -> SlotView {
    if s.c is Some {
        with_mask(p, h, s)
    } else {
        s
    }
}

/// Attaches the mask to a slot that has none.
fn attach_mask(p: &FrodoServerParams, hint: &[u32], slot: PreparedSlot) -> (r: PreparedSlot)
    requires
        params_ok(*p),
        hint@.len() == p.params.lwe_dim * p.row_width,
        slot_ok(*p, hint@, slot.view()),
    ensures
        r.view() == with_mask(*p, hint@, slot.view()),
        slot_ok(*p, hint@, r.view()),
{
    let ghost view = slot.view();
    proof {
        let e = choose|e: Seq<u32>| #[trigger] query_part(*p, view, e);
        assert(query_part(*p, view, e));
        assert(query_part(*p, with_mask(*p, hint@, view), e));
    }
    match slot.c {
        Some(c) => PreparedSlot { secret: slot.secret, b: slot.b, c: Some(c) },
        None => {
            let c: Vec<u32> = compute_c(slot.secret.as_slice(), hint, p.row_width as usize);
            PreparedSlot { secret: slot.secret, b: slot.b, c: Some(c) }
        },
    }
}

impl PrecomputingPirBackend for FrodoPirBackend {
    open spec fn prepared_slots(state: FrodoClientState) -> nat {
        state.slots().len()
    }

    open spec fn in_flight_slots(state: FrodoClientState) -> nat {
        if state.pending() is Some {
            1
        } else {
            0
        }
    }

    open spec fn queries_prepared(
        before: FrodoClientState,
        count: u32,
        after: FrodoClientState,
    ) -> bool {
        let n = before.slots().len();
        &&& same_segment(before, after)
        &&& after.pending() == before.pending()
        &&& after.slots().len() == n + count
        &&& after.slots().take(n as int) == before.slots()
        &&& forall|i: int| n <= i < n + count ==> (#[trigger] after.slots()[i]).c is None
    }

    open spec fn decodes_prepared(before: FrodoClientState, after: FrodoClientState) -> bool {
        let p = before.server_params();
        let h = before.hint_cells();
        &&& same_segment(before, after)
        &&& after.slots() == Seq::new(
            before.slots().len(),
            |i: int| with_mask(p, h, before.slots()[i]),
        )
        &&& after.pending() == match before.pending() {
            Some(s) => Some(with_mask(p, h, s)),
            None => None,
        }
    }

    fn client_precompute_queries(state: &mut FrodoClientState, count: u32) {
        let ghost before = *state;
        let ghost n = state.slots().len();
        let mut i: u32 = 0;
        proof {
            assert(state.slots().take(n as int) =~= before.slots());
        }
        while i < count
            invariant
                i <= count,
                state_ok(*state),
                n == before.slots().len(),
                before == *old(state),
                Self::queries_prepared(before, i, *state),
            decreases count - i,
        {
            let ghost s0 = state.slots();
            let slot: PreparedSlot = sample_slot(
                &state.params,
                state.hint_material.a.as_slice(),
            );
            push_slot(state, slot);
            proof {
                assert(state.slots().take(n as int) =~= s0.take(n as int));
                assert forall|x: int| n <= x < n + i + 1 implies (
                #[trigger] state.slots()[x]).c is None by {
                    if x < n + i {
                        assert(state.slots()[x] == s0[x]);
                    }
                }
            }
            i = i + 1;
        }
    }

    fn client_precompute_decodes(state: &mut FrodoClientState) {
        let ghost before = *state;
        let ghost p = state.params;
        let ghost h = state.hint.data@;
        let ghost s0 = state.slots();
        let n: usize = state.prepared.len();
        let mut i: usize = 0;
        proof {
            assert(state.prepared@ =~= before.prepared@.skip(0));
        }
        while i < n
            invariant
                i <= n == s0.len() == before.prepared@.len() == state.prepared@.len(),
                before == *old(state),
                state_ok(before),
                s0 == before.slots(),
                p == before.params,
                p == state.params,
                h == before.hint.data@,
                h == state.hint.data@,
                state.hint_material == before.hint_material,
                state.in_flight == before.in_flight,
                forall|x: int|
                    0 <= x < n - i ==> #[trigger] state.prepared@[x] == before.prepared@[x + i],
                forall|x: int|
                    n - i <= x < n ==> (#[trigger] state.prepared@[x]).view() == with_mask(
                        p,
                        h,
                        s0[x - (n - i)],
                    ),
            decreases n - i,
        {
            let ghost q0 = state.prepared@;
            let slot: PreparedSlot = state.prepared.pop_front().unwrap();
            proof {
                assert(slot == before.prepared@[i as int]);
                assert(slot.view() == s0[i as int]);
                assert(slot_ok(p, h, s0[i as int]));
            }
            let done: PreparedSlot = attach_mask(&state.params, state.hint.data.as_slice(), slot);
            state.prepared.push_back(done);
            proof {
                assert(state.prepared@ =~= q0.skip(1).push(done));
                assert forall|x: int| n - (i + 1) <= x < n implies (
                #[trigger] state.prepared@[x]).view() == with_mask(
                    p,
                    h,
                    s0[x - (n - (i + 1))],
                ) by {
                    if x < n - 1 {
                        assert(state.prepared@[x] == q0[x + 1]);
                    }
                }
                assert forall|x: int| 0 <= x < n - (i + 1) implies #[trigger] state.prepared@[x]
                    == before.prepared@[x + i + 1] by {
                    assert(state.prepared@[x] == q0[x + 1]);
                }
            }
            i = i + 1;
        }
        let in_flight: Option<PreparedSlot> = state.in_flight.take();
        state.in_flight =
        match in_flight {
            Some(slot) => {
                proof {
                    assert(slot.view() == before.pending()->0);
                }
                Some(attach_mask(&state.params, state.hint.data.as_slice(), slot))
            },
            None => None,
        };
        proof {
            assert(state.slots() =~= Seq::new(s0.len(), |x: int| with_mask(p, h, s0[x])));
            assert forall|x: int| 0 <= x < state.slots().len() implies slot_ok(
                p,
                h,
                #[trigger] state.slots()[x],
            ) by {
                assert(slot_ok(p, h, s0[x]));
                lemma_with_mask_ok(p, h, h, s0[x]);
            }
        }
    }

    fn prepared_slot_count(state: &FrodoClientState) -> (n: usize) {
        state.prepared_len()
    }

    fn in_flight_slot_count(state: &FrodoClientState) -> (n: usize) {
        state.in_flight_len()
    }
}

/// A consistent slot stays so when the mask under the current hint is attached.
proof fn lemma_with_mask_ok(p: FrodoServerParams, old_h: Seq<u32>, h: Seq<u32>, s: SlotView)
    requires
        slot_ok(p, old_h, s),
    ensures
        slot_ok(p, h, with_mask(p, h, s)),
        slot_ok(p, h, remasked(p, h, s)),
{
    let e = choose|e: Seq<u32>| #[trigger] query_part(p, s, e);
    assert(query_part(p, s, e));
    assert(query_part(p, with_mask(p, h, s), e));
}

// ---------------------------------------------------------------- patches
/// Patches the mask of a slot, where it has one, after the hint was patched from `h0` to
/// `h1`.
fn patch_one_slot_c(
    p: &FrodoServerParams,
    a: &[u32],
    Ghost(h0): Ghost<Seq<u32>>,
    Ghost(h1): Ghost<Seq<u32>>,
    slot: PreparedSlot,
    row_deltas: &[(u32, Vec<(u16, i64)>)],
) -> (r: PreparedSlot)
    requires
        params_ok(*p),
        a@ == public_matrix(*p),
        slot_ok(*p, h0, slot.view()),
        edits::edits_fit(
            hint_delta::edits_view(row_deltas@),
            p.n_rows as int,
            p.row_width as int,
        ),
        edits::is_patched(
            h1,
            h0,
            a@,
            p.params.lwe_dim as int,
            p.row_width as int,
            hint_delta::edits_view(row_deltas@),
        ),
    ensures
        r.view() == remasked(*p, h1, slot.view()),
        slot_ok(*p, h1, r.view()),
{
    let ghost view = slot.view();
    proof {
        lemma_with_mask_ok(*p, h0, h1, view);
        let e = choose|e: Seq<u32>| #[trigger] query_part(*p, view, e);
        assert(query_part(*p, view, e));
    }
    match slot.c {
        Some(c) => {
            let mut c: Vec<u32> = c;
            let ghost c0 = c@;
            patching::patch_mask(
                a,
                p.params.lwe_dim,
                p.n_rows,
                p.row_width,
                slot.secret.as_slice(),
                c.as_mut_slice(),
                row_deltas,
            );
            proof {
                patching::law_mask_follows_hint(
                    slot.secret@,
                    c0,
                    c@,
                    h0,
                    h1,
                    a@,
                    p.params.lwe_dim as int,
                    p.row_width as int,
                    hint_delta::edits_view(row_deltas@),
                );
            }
            PreparedSlot { secret: slot.secret, b: slot.b, c: Some(c) }
        },
        None => PreparedSlot { secret: slot.secret, b: slot.b, c: None },
    }
}

/// Patches the masks of a queue of slots.
fn patch_slot_c(
    p: &FrodoServerParams,
    a: &[u32],
    Ghost(h0): Ghost<Seq<u32>>,
    Ghost(h1): Ghost<Seq<u32>>,
    slots: &mut VecDeque<PreparedSlot>,
    row_deltas: &[(u32, Vec<(u16, i64)>)],
)
    requires
        params_ok(*p),
        a@ == public_matrix(*p),
        forall|i: int|
            0 <= i < old(slots)@.len() ==> slot_ok(*p, h0, (#[trigger] old(slots)@[i]).view()),
        edits::edits_fit(
            hint_delta::edits_view(row_deltas@),
            p.n_rows as int,
            p.row_width as int,
        ),
        edits::is_patched(
            h1,
            h0,
            a@,
            p.params.lwe_dim as int,
            p.row_width as int,
            hint_delta::edits_view(row_deltas@),
        ),
    ensures
        final(slots)@.len() == old(slots)@.len(),
        forall|i: int|
            0 <= i < final(slots)@.len() ==> {
                &&& (#[trigger] final(slots)@[i]).view() == remasked(
                    *p,
                    h1,
                    old(slots)@[i].view(),
                )
                &&& slot_ok(*p, h1, final(slots)@[i].view())
            },
{
    let ghost s0 = slots@;
    let n: usize = slots.len();
    let mut i: usize = 0;
    while i < n
        invariant
            i <= n == s0.len() == slots@.len(),
            s0 == old(slots)@,
            params_ok(*p),
            a@ == public_matrix(*p),
            forall|x: int| 0 <= x < s0.len() ==> slot_ok(*p, h0, (#[trigger] s0[x]).view()),
            edits::edits_fit(
                hint_delta::edits_view(row_deltas@),
                p.n_rows as int,
                p.row_width as int,
            ),
            edits::is_patched(
                h1,
                h0,
                a@,
                p.params.lwe_dim as int,
                p.row_width as int,
                hint_delta::edits_view(row_deltas@),
            ),
            forall|x: int| 0 <= x < n - i ==> #[trigger] slots@[x] == s0[x + i],
            forall|x: int|
                n - i <= x < n ==> {
                    &&& (#[trigger] slots@[x]).view() == remasked(
                        *p,
                        h1,
                        s0[x - (n - i)].view(),
                    )
                    &&& slot_ok(*p, h1, slots@[x].view())
                },
        decreases n - i,
    {
        let ghost q0 = slots@;
        let slot: PreparedSlot = slots.pop_front().unwrap();
        proof {
            assert(slot == s0[i as int]);
        }
        let done: PreparedSlot = patch_one_slot_c(p, a, Ghost(h0), Ghost(h1), slot, row_deltas);
        slots.push_back(done);
        proof {
            assert(slots@ =~= q0.skip(1).push(done));
            assert forall|x: int| n - (i + 1) <= x < n implies {
                &&& (#[trigger] slots@[x]).view() == remasked(
                    *p,
                    h1,
                    s0[x - (n - (i + 1))].view(),
                )
                &&& slot_ok(*p, h1, slots@[x].view())
            } by {
                if x < n - 1 {
                    assert(slots@[x] == q0[x + 1]);
                }
            }
            assert forall|x: int| 0 <= x < n - (i + 1) implies #[trigger] slots@[x] == s0[x + i
                + 1] by {
                assert(slots@[x] == q0[x + 1]);
            }
        }
        i = i + 1;
    }
}

impl IncrementalPirBackend for FrodoPirBackend {
    open spec fn can_patch(
        params: FrodoServerParams,
        material: FrodoHintMaterial,
        hint: FrodoHint,
        rows: Edits,
    ) -> bool {
        &&& material.a@.len() == params.n_rows * params.params.lwe_dim
        &&& hint.data@.len() == params.params.lwe_dim * params.row_width
        &&& edits::edits_fit(rows, params.n_rows as int, params.row_width as int)
    }

    open spec fn hint_patched(
        params: FrodoServerParams,
        material: FrodoHintMaterial,
        before: FrodoHint,
        rows: Edits,
        after: FrodoHint,
    ) -> bool {
        edits::is_patched(
            after.data@,
            before.data@,
            material.a@,
            params.params.lwe_dim as int,
            params.row_width as int,
            rows,
        )
    }

    open spec fn can_patch_client(state: FrodoClientState, rows: Edits) -> bool {
        edits::edits_fit(
            rows,
            state.server_params().n_rows as int,
            state.server_params().row_width as int,
        )
    }

    open spec fn client_patched(
        before: FrodoClientState,
        rows: Edits,
        after: FrodoClientState,
    ) -> bool {
        let p = before.server_params();
        let h = after.hint_cells();
        &&& after.server_params() == p
        &&& after.matrix() == before.matrix()
        &&& edits::is_patched(
            h,
            before.hint_cells(),
            before.matrix(),
            p.params.lwe_dim as int,
            p.row_width as int,
            rows,
        )
        &&& after.slots() == Seq::new(
            before.slots().len(),
            |i: int| remasked(p, h, before.slots()[i]),
        )
        &&& after.pending() == match before.pending() {
            Some(s) => Some(remasked(p, h, s)),
            None => None,
        }
    }

    fn server_patch_hint(
        params: &FrodoServerParams,
        material: &FrodoHintMaterial,
        hint: &mut FrodoHint,
        row_deltas: &[(u32, Vec<(u16, i64)>)],
        mode: HintPatchMode,
    ) {
        patching::apply_patch(
            material.a.as_slice(),
            params.params.lwe_dim,
            params.n_rows,
            params.row_width,
            hint.data.as_mut_slice(),
            row_deltas,
            mode,
        );
    }

    fn client_patch_state(
        state: &mut FrodoClientState,
        row_deltas: &[(u32, Vec<(u16, i64)>)],
        mode: HintPatchMode,
    ) {
        let ghost before = *state;
        let ghost h0 = state.hint.data@;
        let ghost s0 = state.slots();
        patching::apply_patch(
            state.hint_material.a.as_slice(),
            state.params.params.lwe_dim,
            state.params.n_rows,
            state.params.row_width,
            state.hint.data.as_mut_slice(),
            row_deltas,
            mode,
        );
        let ghost h1 = state.hint.data@;
        proof {
            assert forall|i: int| 0 <= i < state.prepared@.len() implies slot_ok(
                state.params,
                h0,
                (#[trigger] state.prepared@[i]).view(),
            ) by {
                assert(s0[i] == before.prepared@[i].view());
            }
        }
        patch_slot_c(
            &state.params,
            state.hint_material.a.as_slice(),
            Ghost(h0),
            Ghost(h1),
            &mut state.prepared,
            row_deltas,
        );
        let in_flight: Option<PreparedSlot> = state.in_flight.take();
        state.in_flight =
        match in_flight {
            Some(slot) => {
                proof {
                    assert(slot.view() == before.pending()->0);
                }
                Some(
                    patch_one_slot_c(
                        &state.params,
                        state.hint_material.a.as_slice(),
                        Ghost(h0),
                        Ghost(h1),
                        slot,
                        row_deltas,
                    ),
                )
            },
            None => None,
        };
        proof {
            assert(state.slots() =~= Seq::new(
                s0.len(),
                |i: int| remasked(before.params, h1, s0[i]),
            ));
        }
    }
}

// ---------------------------------------------------------------- rewinding
impl ResponseRewind for FrodoPirBackend {
    open spec fn can_rewind(
        state: FrodoClientState,
        query: FrodoQuery,
        response: FrodoResponse,
        rows: Edits,
    ) -> bool {
        edits::edits_fit(rows, query.b@.len() as int, response.a@.len() as int)
    }

    open spec fn rewound(
        state: FrodoClientState,
        query: FrodoQuery,
        before: FrodoResponse,
        rows: Edits,
        after: FrodoResponse,
    ) -> bool {
        after.a@ == Seq::new(
            before.a@.len(),
            |j: int| arith::wrap(before.a@[j] - edits::patch_sum(query.b@, 1, rows, 0, j)),
        )
    }

    fn rewind_response(
        state: &FrodoClientState,
        query: &FrodoQuery,
        resp: &mut FrodoResponse,
        deltas: &[(u32, Vec<(u16, i64)>)],
    ) {
        let ghost all = hint_delta::edits_view(deltas@);
        let ghost q = query.b@;
        let ghost r0 = resp.a@;
        let ghost w = resp.a@.len() as int;
        let mut i: usize = 0;
        proof {
            assert(all.take(0) =~= Seq::empty());
            assert forall|j: int| 0 <= j < w implies #[trigger] resp.a@[j] == arith::wrap(
                r0[j] - edits::patch_sum(q, 1, all.take(0), 0, j),
            ) by {
                arith::lemma_wrap_id(r0[j]);
            }
        }
        while i < deltas.len()
            invariant
                i <= deltas@.len(),
                all == hint_delta::edits_view(deltas@),
                q == query.b@,
                w == r0.len() == resp.a@.len(),
                edits::edits_fit(all, q.len() as int, w),
                forall|j: int|
                    0 <= j < w ==> #[trigger] resp.a@[j] == arith::wrap(
                        r0[j] - edits::patch_sum(q, 1, all.take(i as int), 0, j),
                    ),
            decreases deltas@.len() - i,
        {
            let row: usize = deltas[i].0 as usize;
            let cells: &Vec<(u16, i64)> = &deltas[i].1;
            let ghost edit = all[i as int];
            let ghost r1 = resp.a@;
            proof {
                assert(edit == (deltas@[i as int].0, cells@));
                assert(edits::cells_fit(cells@, w));
                assert(cells@.take(0) =~= Seq::empty());
            }
            let b: u32 = query.b[row];
            let mut y: usize = 0;
            proof {
                assert forall|j: int| 0 <= j < w implies #[trigger] resp.a@[j] == arith::wrap(
                    r1[j] - b * edits::cell_total(cells@.take(0), j),
                ) by {
                    arith::lemma_wrap_id(r1[j]);
                    assert(b * 0 == 0);
                }
            }
            while y < cells.len()
                invariant
                    y <= cells@.len(),
                    w == r1.len() == resp.a@.len(),
                    edits::cells_fit(cells@, w),
                    forall|j: int|
                        0 <= j < w ==> #[trigger] resp.a@[j] == arith::wrap(
                            r1[j] - b * edits::cell_total(cells@.take(y as int), j),
                        ),
                decreases cells@.len() - y,
            {
                let off: usize = cells[y].0 as usize;
                let d: i64 = cells[y].1;
                let ghost r2 = resp.a@;
                let ghost t = cells@.take(y as int);
                let ghost t2 = cells@.take(y as int + 1);
                let x: u32 = b.wrapping_mul(arith::residue(d));
                let v: u32 = resp.a[off].wrapping_sub(x);
                resp.a.set(off, v);
                proof {
                    assert(t2.drop_last() =~= t);
                    assert(t2.last() == cells@[y as int]);
                    assert forall|j: int| 0 <= j < w implies #[trigger] resp.a@[j] == arith::wrap(
                        r1[j] - b * edits::cell_total(t2, j),
                    ) by {
                        let sum = edits::cell_total(t, j);
                        assert(r2[j] == arith::wrap(r1[j] - b * sum));
                        if j == off {
                            let base = r1[j] - b * sum;
                            arith::lemma_wrap_mul(b as int, d as int);
                            assert(x == arith::wrap(b * d));
                            arith::lemma_wrap_add(base - x, 0);
                            arith::lemma_wrap_add(base, -(x as int));
                            arith::lemma_wrap_add(base, b * d);
                            assert(b * (sum + d) == b * sum + b * d) by (nonlinear_arith);
                        }
                    }
                }
                y = y + 1;
            }
            proof {
                assert(cells@.take(cells@.len() as int) =~= cells@);
                assert(all.take(i + 1).drop_last() =~= all.take(i as int));
                assert(all.take(i + 1).last() == edit);
                assert forall|j: int| 0 <= j < w implies #[trigger] resp.a@[j] == arith::wrap(
                    r0[j] - edits::patch_sum(q, 1, all.take(i + 1), 0, j),
                ) by {
                    let total = edits::cell_total(cells@, j);
                    let base = r0[j] - edits::patch_sum(q, 1, all.take(i as int), 0, j);
                    assert(r1[j] == arith::wrap(base));
                    arith::lemma_wrap_add(base, -(b * total));
                    assert(arith::cell(q, 1, row as int, 0) == b);
                }
            }
            i = i + 1;
        }
        proof {
            assert(all.take(all.len() as int) =~= all);
            assert(resp.a@ =~= Seq::new(
                r0.len(),
                |j: int| arith::wrap(r0[j] - edits::patch_sum(q, 1, all, 0, j)),
            ));
        }
    }
}

} // verus!
