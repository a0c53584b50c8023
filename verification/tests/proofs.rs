//! The gates and cells of the library in halo2 circuits: halo2 accepts a witness exactly where the
//! library does, and real proofs verify.
use ff::{Field as _, PrimeField};
use gradido_blockchain_zk::circuit::decay_chip::{self, DecayRows, EXACT_REM_BITS, RANGE_BITS, SHIFT_TAG};
use gradido_blockchain_zk::circuit::gate::{Expr, Gate};
use gradido_blockchain_zk::circuit::range::words;
use gradido_blockchain_zk::circuit::value_balance::{
    self as balance, balance_gate, decomposition_gate, range_rows as balance_range_rows, LIMB_BITS, N_IN, N_LIMBS, N_OUT,
};
use gradido_blockchain_zk::decay::{decay, decay_windowed, DECAY_POWERS, ONE, REM_BITS, SECONDS_PER_YEAR, WINDOWS};
use gradido_blockchain_zk::pallas::Base;
use gradido_blockchain_zk::{ffi, prover};
use group::{Curve, Group, GroupEncoding};
use halo2_gadgets::utilities::lookup_range_check::{
    LookupRangeCheck, PallasLookupRangeCheck, PallasLookupRangeCheckConfig,
};
use halo2_proofs::{
    arithmetic::best_fft,
    circuit::{AssignedCell, Layouter, Region, SimpleFloorPlanner, Value},
    dev::MockProver,
    plonk::{
        create_proof, keygen_pk, keygen_vk, verify_proof, Advice, Circuit, Column, ConstraintSystem, Error, Expression,
        Fixed, Instance, ProvingKey, Selector, SingleVerifier, TableColumn, VerifyingKey, VirtualCells,
    },
    poly::{commitment::Params, Rotation},
    transcript::{Blake2bRead, Blake2bWrite, Challenge255},
};
use pasta_curves::{pallas, vesta};
use rand::rngs::{OsRng, StdRng};
use rand::SeedableRng;

// ------------------------------------------------------------------------------- gates and cells

type Field = pallas::Base;
type Cell = AssignedCell<Field, Field>;

fn field(value: &Base) -> Field {
    Option::from(Field::from_repr(value.to_repr())).expect("the library keeps canonical elements")
}

fn base(value: &Field) -> Base {
    Base::from_repr(&value.to_repr()).expect("halo2 keeps canonical elements")
}

fn fields(row: &[Base]) -> Vec<Field> {
    row.iter().map(field).collect()
}

fn field_rows(rows: &[Vec<Base>]) -> Vec<Vec<Field>> {
    rows.iter().map(|row| fields(row)).collect()
}

fn low_u64(value: &Field) -> u64 {
    base(value).low_u64()
}

fn expression(
    meta: &mut VirtualCells<'_, Field>,
    expr: &Expr,
    advice: &[Column<Advice>],
    fixed: &[Column<Fixed>],
) -> Expression<Field> {
    match expr {
        Expr::Constant(value) => Expression::Constant(field(value)),
        Expr::Advice { column, rotation } => meta.query_advice(advice[*column], Rotation(*rotation as i32)),
        Expr::Fixed { column } => meta.query_fixed(fixed[*column]),
        Expr::Sum(a, b) => expression(meta, a, advice, fixed) + expression(meta, b, advice, fixed),
        Expr::Difference(a, b) => expression(meta, a, advice, fixed) - expression(meta, b, advice, fixed),
        Expr::Product(a, b) => expression(meta, a, advice, fixed) * expression(meta, b, advice, fixed),
    }
}

/// Adds a gate that is switched on by a selector.
fn create_gate(
    meta: &mut ConstraintSystem<Field>,
    selector: Selector,
    gate: &Gate,
    advice: &[Column<Advice>],
    fixed: &[Column<Fixed>],
) {
    meta.create_gate(gate.name, |meta| {
        let s = meta.query_selector(selector);
        gate.polys.iter().map(|poly| s.clone() * expression(meta, poly, advice, fixed)).collect::<Vec<_>>()
    });
}

/// Assigns one cell of some rows to the same place of a region.
fn assign(
    region: &mut Region<'_, Field>,
    name: &'static str,
    columns: &[Column<Advice>],
    rows: &Value<Vec<Vec<Field>>>,
    row: usize,
    column: usize,
) -> Result<Cell, Error> {
    region.assign_advice(|| name, columns[column], row, || rows.as_ref().map(|rows| rows[row][column]))
}

// ------------------------------------------------------------------------------- value balance

#[derive(Clone, Debug)]
struct ValueBalanceConfig {
    value: Column<Advice>,
    limb: Column<Advice>,
    instance: Column<Instance>,
    range_table: TableColumn,
    s_balance: Selector,
    s_decompose: Selector,
    s_lookup: Selector,
}

/// Witness; unknown when only the shape is needed.
#[derive(Clone, Debug, Default)]
struct BalanceCircuit {
    witness: Value<balance::ValueBalanceCircuit>,
}

impl From<balance::ValueBalanceCircuit> for BalanceCircuit {
    fn from(witness: balance::ValueBalanceCircuit) -> Self {
        Self { witness: Value::known(witness) }
    }
}

impl Circuit<Field> for BalanceCircuit {
    type Config = ValueBalanceConfig;
    type FloorPlanner = SimpleFloorPlanner;

    fn without_witnesses(&self) -> Self {
        Self::default()
    }

    fn configure(meta: &mut ConstraintSystem<Field>) -> Self::Config {
        let value = meta.advice_column();
        let limb = meta.advice_column();
        let instance = meta.instance_column();
        let range_table = meta.lookup_table_column();
        meta.enable_equality(value);
        meta.enable_equality(instance);
        let s_balance = meta.selector();
        let s_decompose = meta.selector();
        // lookups may only be gated by complex selectors
        let s_lookup = meta.complex_selector();
        create_gate(meta, s_balance, &balance_gate(), &[value, limb], &[]);
        create_gate(meta, s_decompose, &decomposition_gate(), &[value, limb], &[]);
        // every limb is a byte
        meta.lookup(|meta| {
            let s = meta.query_selector(s_lookup);
            let l = meta.query_advice(limb, Rotation::cur());
            // when the selector is off the expression is 0, which is in the table
            vec![(s * l, range_table)]
        });
        ValueBalanceConfig { value, limb, instance, range_table, s_balance, s_decompose, s_lookup }
    }

    fn synthesize(&self, config: Self::Config, mut layouter: impl Layouter<Field>) -> Result<(), Error> {
        layouter.assign_table(
            || "range table",
            |mut table| {
                for i in 0..(1usize << LIMB_BITS) {
                    table.assign_cell(|| "byte", config.range_table, i, || Value::known(Field::from(i as u64)))?;
                }
                Ok(())
            },
        )?;
        let columns = [config.value, config.limb];

        // the values in consecutive rows, tied together by the balance, and the sighash below
        let rows = self.witness.as_ref().map(|w| field_rows(&w.value_rows()));
        let mut cells = layouter.assign_region(
            || "values",
            |mut region| {
                config.s_balance.enable(&mut region, 0)?;
                (0..N_IN + N_OUT + 1).map(|i| assign(&mut region, "value", &columns, &rows, i, 0)).collect::<Result<Vec<_>, _>>()
            },
        )?;
        let sighash = cells.pop().expect("one row more than values");

        // one decomposition block per value
        for (i, cell) in cells.iter().enumerate() {
            let limbs = self.witness.as_ref().map(|w| {
                let value: &Base = if i < N_IN { &w.inputs[i] } else { &w.outputs[i - N_IN] };
                field_rows(&balance_range_rows(value))
            });
            layouter.assign_region(
                || "range check",
                |mut region| {
                    cell.copy_advice(|| "value", &mut region, config.value, 0)?;
                    config.s_decompose.enable(&mut region, 0)?;
                    for j in 0..N_LIMBS {
                        config.s_lookup.enable(&mut region, j)?;
                        assign(&mut region, "limb", &columns, &limbs, j, 1)?;
                    }
                    Ok(())
                },
            )?;
        }

        // bind the proof to the public sighash
        layouter.constrain_instance(sighash.cell(), config.instance, 0)
    }
}

// ------------------------------------------------------------------------------- decay chip

/// `cell < 2^bits`, exactly.
fn check_bits<Lookup: PallasLookupRangeCheck>(
    lookup: &Lookup,
    layouter: &mut impl Layouter<Field>,
    cell: &Cell,
    bits: u32,
) -> Result<(), Error> {
    let (words, extra) = words(bits);
    if words == 0 {
        return lookup.copy_short_check(layouter.namespace(|| "short range"), cell.clone(), extra);
    }
    let zs = lookup.copy_check(layouter.namespace(|| "range"), cell.clone(), words, extra == 0)?;
    if extra == 0 {
        return Ok(());
    }
    lookup.copy_short_check(layouter.namespace(|| "range top"), zs[words].clone(), extra)
}

fn two_pow_64() -> Field {
    field(&Base::from_u128(ONE))
}

#[derive(Clone, Debug)]
struct DecayConfig<Lookup: PallasLookupRangeCheck, const WINDOWED: bool> {
    a: [Column<Advice>; 6],
    pconst: Column<Fixed>,
    tab_t: TableColumn,
    tab_x: TableColumn,
    tab_y: TableColumn,
    s_step: Selector,
    s_window: Selector,
    s_duration: Selector,
    s_shift: Selector,
    s_lookup: Selector,
    s_final: Selector,
    lookup: Lookup,
}

impl<Lookup: PallasLookupRangeCheck, const WINDOWED: bool> DecayConfig<Lookup, WINDOWED> {
    /// `pconst` carries the per-row constant of the factor chain: the bit factor, or the window
    /// index for the lookup.
    #[allow(clippy::too_many_arguments)]
    fn configure(
        meta: &mut ConstraintSystem<Field>,
        a: [Column<Advice>; 6],
        pconst: Column<Fixed>,
        tab_t: TableColumn,
        tab_x: TableColumn,
        tab_y: TableColumn,
        lookup: Lookup,
    ) -> Self {
        for col in a.iter() {
            meta.enable_equality(*col);
        }
        let s_step = meta.selector();
        let s_window = meta.complex_selector();
        let s_duration = meta.selector();
        let s_shift = meta.selector();
        let s_lookup = meta.complex_selector();
        let s_final = meta.selector();

        let chip = decay_chip::DecayConfig::<WINDOWED>::configure();
        create_gate(meta, if WINDOWED { s_window } else { s_step }, &chip.step, &a, &[pconst]);
        create_gate(meta, s_duration, &chip.duration, &a, &[]);
        create_gate(meta, s_shift, &chip.year_shift, &a, &[]);

        // One lookup for both uses: the window rows read (window index, digit, factor), the shift
        // row reads (SHIFT_TAG, s, 2^s). With the selector off it reads the neutral row (0, 0, 2^64).
        meta.lookup(|meta| {
            let s = meta.query_selector(s_lookup);
            let tag = meta.query_fixed(pconst);
            let x = meta.query_advice(a[3], Rotation::cur());
            let y = meta.query_advice(a[5], Rotation::cur());
            let off = Expression::Constant(Field::one()) - s.clone();
            vec![
                (s.clone() * tag, tab_t),
                (s.clone() * x, tab_x),
                (s * y + off * Expression::Constant(two_pow_64()), tab_y),
            ]
        });
        create_gate(meta, s_final, &chip.round, &a, &[]);

        Self { a, pconst, tab_t, tab_x, tab_y, s_step, s_window, s_duration, s_shift, s_lookup, s_final, lookup }
    }

    /// Loads the table this chip owns.
    fn load(&self, layouter: &mut impl Layouter<Field>) -> Result<(), Error> {
        layouter.assign_table(
            || "decay table",
            |mut table| {
                for (row, (t, x, y)) in decay_chip::load(WINDOWED).into_iter().enumerate() {
                    table.assign_cell(|| "tag", self.tab_t, row, || Value::known(Field::from(t)))?;
                    table.assign_cell(|| "x", self.tab_x, row, || Value::known(Field::from(x)))?;
                    table.assign_cell(|| "y", self.tab_y, row, || Value::known(field(&Base::from_u128(y))))?;
                }
                Ok(())
            },
        )
    }

    fn range_check(&self, layouter: &mut impl Layouter<Field>, cell: &Cell) -> Result<(), Error> {
        check_bits(&self.lookup, layouter, cell, RANGE_BITS)
    }

    /// Proves `decayed = decay(value, now - t_note)` on the given cells and returns `decayed`.
    /// `value` must already be constrained below 2^63.
    fn decay(
        &self,
        layouter: &mut impl Layouter<Field>,
        now: &Cell,
        value: &Cell,
        t_note: &Cell,
    ) -> Result<Cell, Error> {
        value.value().assert_if_known(|v| low_u64(v) < 1 << 63);
        let rows: Value<DecayRows> = now.value().zip(value.value()).zip(t_note.value()).map(|((n, v), t)| {
            decay_chip::DecayConfig::<WINDOWED>::decay(low_u64(n), low_u64(v), low_u64(t))
        });
        let (rem, f_last) = self.factor_chain(layouter, rows.as_ref().map(|r| field_rows(&r.chain)))?;

        // now - t_note = times * year + rem, with the witness for rem < year
        let cells = rows.as_ref().map(|r| field_rows(&r.duration));
        let (times, bound) = layouter.assign_region(
            || "duration",
            |mut region| {
                self.s_duration.enable(&mut region, 0)?;
                now.copy_advice(|| "now", &mut region, self.a[0], 0)?;
                t_note.copy_advice(|| "t_note", &mut region, self.a[1], 0)?;
                let times = assign(&mut region, "times", &self.a, &cells, 0, 2)?;
                rem.copy_advice(|| "rem", &mut region, self.a[3], 0)?;
                let bound = assign(&mut region, "year - 1 - rem", &self.a, &cells, 0, 4)?;
                Ok((times, bound))
            },
        )?;
        self.range_check(layouter, &times)?;
        self.range_check(layouter, &bound)?;

        // whole years: value >> times
        let cells = rows.as_ref().map(|r| field_rows(&r.shift));
        let (q, r, d, w, shifted) = layouter.assign_region(
            || "year shift",
            |mut region| {
                self.s_shift.enable(&mut region, 0)?;
                self.s_lookup.enable(&mut region, 0)?;
                region.assign_fixed(|| "shift tag", self.pconst, 0, || Value::known(Field::from(SHIFT_TAG)))?;
                value.copy_advice(|| "value", &mut region, self.a[0], 0)?;
                let q = assign(&mut region, "q", &self.a, &cells, 0, 1)?;
                let r = assign(&mut region, "r", &self.a, &cells, 0, 2)?;
                assign(&mut region, "s", &self.a, &cells, 0, 3)?;
                assign(&mut region, "big", &self.a, &cells, 0, 4)?;
                assign(&mut region, "2^s", &self.a, &cells, 0, 5)?;
                times.copy_advice(|| "times", &mut region, self.a[1], 1)?;
                let w = assign(&mut region, "w", &self.a, &cells, 1, 2)?;
                let shifted = assign(&mut region, "shifted", &self.a, &cells, 1, 3)?;
                let d = assign(&mut region, "2^s - 1 - r", &self.a, &cells, 1, 4)?;
                Ok((q, r, d, w, shifted))
            },
        )?;
        for cell in [&q, &r, &d, &w] {
            self.range_check(layouter, cell)?;
        }

        // decayed = floor((shifted * F + 2^63) / 2^64)
        let cells = rows.as_ref().map(|r| field_rows(&r.round));
        let (decayed, round_rem) = layouter.assign_region(
            || "round half up",
            |mut region| {
                self.s_final.enable(&mut region, 0)?;
                shifted.copy_advice(|| "shifted", &mut region, self.a[0], 0)?;
                f_last.copy_advice(|| "F", &mut region, self.a[1], 0)?;
                let decayed = assign(&mut region, "decayed", &self.a, &cells, 0, 2)?;
                let round_rem = assign(&mut region, "round rem", &self.a, &cells, 0, 3)?;
                Ok((decayed, round_rem))
            },
        )?;
        self.range_check(layouter, &decayed)?;
        check_bits(&self.lookup, layouter, &round_rem, EXACT_REM_BITS)?;
        Ok(decayed)
    }

    /// The steps of the factor chain. Returns `(rem, final factor)`.
    fn factor_chain(
        &self,
        layouter: &mut impl Layouter<Field>,
        rows: Value<Vec<Vec<Field>>>,
    ) -> Result<(Cell, Cell), Error> {
        let steps = if WINDOWED { WINDOWS } else { REM_BITS };
        let (rem, f_last, f_next, f_rem) = layouter.assign_region(
            || "decay factor",
            |mut region| {
                let mut f = region.assign_advice_from_constant(|| "F0", self.a[0], 0, two_pow_64())?;
                let mut f_next = Vec::with_capacity(steps);
                let mut f_rem = Vec::with_capacity(steps);
                let mut rem = None;
                for i in 0..steps {
                    let constant = if WINDOWED {
                        self.s_window.enable(&mut region, i)?;
                        self.s_lookup.enable(&mut region, i)?;
                        assign(&mut region, "factor", &self.a, &rows, i, 5)?;
                        i as u64
                    } else {
                        self.s_step.enable(&mut region, i)?;
                        DECAY_POWERS[i]
                    };
                    region.assign_fixed(|| "step", self.pconst, i, || Value::known(Field::from(constant)))?;
                    f_next.push(assign(&mut region, "F'", &self.a, &rows, i, 1)?);
                    f_rem.push(assign(&mut region, "F' rem", &self.a, &rows, i, 2)?);
                    assign(&mut region, "digit", &self.a, &rows, i, 3)?;
                    let acc = assign(&mut region, "rest of rem", &self.a, &rows, i, 4)?;
                    if i == 0 {
                        rem = Some(acc);
                    }
                    f = assign(&mut region, "F", &self.a, &rows, i + 1, 0)?;
                }
                region.assign_advice_from_constant(|| "end of rem", self.a[4], steps, Field::zero())?;
                Ok((rem.expect("at least one step"), f, f_next, f_rem))
            },
        )?;
        for i in 0..steps {
            self.range_check(layouter, &f_next[i])?;
            check_bits(&self.lookup, layouter, &f_rem[i], EXACT_REM_BITS)?;
        }
        Ok((rem, f_last))
    }
}

// ------------------------------------------------------------------------------- decay, alone

/// Smallest circuit around the chip: `now` public, one note, the decayed value public.
#[derive(Clone, Debug, Default)]
struct DecayCircuit<const WINDOWED: bool> {
    value: Value<Field>,
    t_note: Value<Field>,
}

#[derive(Clone, Debug)]
struct DecayCircuitConfig<const WINDOWED: bool> {
    decay: DecayConfig<PallasLookupRangeCheckConfig, WINDOWED>,
    advices: [Column<Advice>; 6],
    instance: Column<Instance>,
    table_idx: TableColumn,
}

impl<const WINDOWED: bool> Circuit<Field> for DecayCircuit<WINDOWED> {
    type Config = DecayCircuitConfig<WINDOWED>;
    type FloorPlanner = SimpleFloorPlanner;

    fn without_witnesses(&self) -> Self {
        Self::default()
    }

    fn configure(meta: &mut ConstraintSystem<Field>) -> Self::Config {
        let advices = [(); 6].map(|_| meta.advice_column());
        let running_sum = meta.advice_column();
        meta.enable_equality(running_sum);
        let instance = meta.instance_column();
        meta.enable_equality(instance);
        let constants = meta.fixed_column();
        meta.enable_constant(constants);
        let table_idx = meta.lookup_table_column();
        let range_check = PallasLookupRangeCheckConfig::configure(meta, running_sum, table_idx);
        let pconst = meta.fixed_column();
        let tab_t = meta.lookup_table_column();
        let tab_x = meta.lookup_table_column();
        let tab_y = meta.lookup_table_column();
        let decay = DecayConfig::configure(meta, advices, pconst, tab_t, tab_x, tab_y, range_check);
        DecayCircuitConfig { decay, advices, instance, table_idx }
    }

    fn synthesize(&self, config: Self::Config, mut layouter: impl Layouter<Field>) -> Result<(), Error> {
        layouter.assign_table(
            || "10 bit table",
            |mut table| {
                for i in 0..(1usize << 10) {
                    table.assign_cell(|| "idx", config.table_idx, i, || Value::known(Field::from(i as u64)))?;
                }
                Ok(())
            },
        )?;
        config.decay.load(&mut layouter)?;
        let a = config.advices;
        let now = layouter.assign_region(
            || "now",
            |mut region| region.assign_advice_from_instance(|| "now", config.instance, 0, a[0], 0),
        )?;
        let value = layouter
            .assign_region(|| "value", |mut region| region.assign_advice(|| "value", a[1], 0, || self.value))?;
        let t_note = layouter
            .assign_region(|| "t_note", |mut region| region.assign_advice(|| "t_note", a[2], 0, || self.t_note))?;
        check_bits(&config.decay.lookup, &mut layouter, &value, 63)?;
        let decayed = config.decay.decay(&mut layouter, &now, &value, &t_note)?;
        layouter.constrain_instance(decayed.cell(), config.instance, 1)
    }
}

// ------------------------------------------------------------------------------- tests

const NOW: u64 = 10_000_000_000;

fn halo2_accepts_decay<const WINDOWED: bool>(value: u64, t_note: u64, decayed: u64) -> bool {
    let circuit = DecayCircuit::<WINDOWED> {
        value: Value::known(Field::from(value)),
        t_note: Value::known(Field::from(t_note)),
    };
    let instance = vec![Field::from(NOW), Field::from(decayed)];
    MockProver::run(11, &circuit, vec![instance]).unwrap().verify().is_ok()
}

const CASES: [(u64, u64); 7] = [
    (1_000_0000, 400 * 86_400),
    (1, SECONDS_PER_YEAR),
    ((1 << 63) - 1, 1),
    ((1 << 63) - 1, 62 * SECONDS_PER_YEAR + 77),
    (123_456_789, 64 * SECONDS_PER_YEAR),
    (0, 5),
    (77, 0),
];

#[test]
fn the_bit_chain_decays_in_halo2() {
    for (value, age) in CASES {
        let decayed = decay(value, age);
        assert!(halo2_accepts_decay::<false>(value, NOW - age, decayed), "value {}, age {}", value, age);
        assert!(!halo2_accepts_decay::<false>(value, NOW - age, decayed + 1));
    }
}

#[test]
fn the_windows_decay_in_halo2() {
    for (value, age) in CASES {
        let decayed = decay_windowed(value, age);
        assert!(halo2_accepts_decay::<true>(value, NOW - age, decayed), "value {}, age {}", value, age);
        assert!(!halo2_accepts_decay::<true>(value, NOW - age, decayed + 1));
    }
}

#[test]
fn a_note_from_the_future_has_no_cells_in_halo2() {
    assert!(!halo2_accepts_decay::<false>(100, NOW + 1, 100));
    assert!(!halo2_accepts_decay::<true>(100, NOW + 1, 100));
}

fn balance_witness(inputs: [u64; 2], outputs: [u64; 2], sighash: u64) -> balance::ValueBalanceCircuit {
    balance::ValueBalanceCircuit::new(inputs.map(Base::from), outputs.map(Base::from), Base::from(sighash))
}

fn halo2_accepts_balance(witness: balance::ValueBalanceCircuit, sighash: Base) -> bool {
    let instance = fields(&[sighash]);
    MockProver::run(balance::K, &BalanceCircuit::from(witness), vec![instance]).unwrap().verify().is_ok()
}

#[test]
fn halo2_balances_as_the_library_does() {
    let sighash = Base::from(42u64);
    let mut wide = balance_witness([0, 0], [0, 0], 42);
    // 2^160 on both sides balances and is out of range
    let mut limit = [0u8; 32];
    limit[20] = 1;
    wide.inputs[0] = Base::from_repr(&limit).unwrap();
    wide.outputs[1] = wide.inputs[0];
    // a negative value balances in the field alone
    let mut negative = balance_witness([5, 0], [6, 0], 42);
    negative.outputs[1] = Base::one().negate();
    for witness in [
        balance_witness([100, 23], [120, 3], 42),
        balance_witness([100, 23], [120, 4], 42),
        balance_witness([0, 0], [0, 0], 42),
        balance_witness([u64::MAX, u64::MAX], [u64::MAX, u64::MAX], 41),
        wide,
        negative,
    ] {
        assert_eq!(halo2_accepts_balance(witness, sighash), witness.accepts(&sighash));
    }
}

/// Parameters for the value balance. Their generators are known multiples of one point, so they
/// bind nobody; a proof is made and checked with them as with any others, and they take a fraction
/// of the time of `Params::new`.
fn parameters() -> Params<vesta::Affine> {
    let k = balance::K;
    let mut rng = StdRng::seed_from_u64(11);
    let monomial: Vec<Field> = (0..1usize << k).map(|_| Field::random(&mut rng)).collect();
    let mut root = Field::ROOT_OF_UNITY_INV;
    for _ in k..Field::S {
        root = root.square();
    }
    let scale = Field::TWO_INV.pow_vartime([u64::from(k)]);
    let mut lagrange = monomial.clone();
    best_fft(&mut lagrange, root, k);
    for scalar in lagrange.iter_mut() {
        *scalar *= scale;
    }

    // multiples[j][c] is [c 256^j] G
    let mut multiples = Vec::new();
    let mut step = vesta::Point::generator();
    for _ in 0..32 {
        let mut row = vec![vesta::Point::identity()];
        for c in 0..255 {
            let next = row[c] + step;
            row.push(next);
        }
        step += row[255];
        multiples.push(row);
    }
    let mut bytes = k.to_le_bytes().to_vec();
    for scalar in monomial.iter().chain(&lagrange).chain(&[Field::random(&mut rng), Field::random(&mut rng)]) {
        let digits = scalar.to_repr();
        let point: vesta::Point = (0..32).map(|j| multiples[j][usize::from(digits[j])]).sum();
        bytes.extend_from_slice(point.to_affine().to_bytes().as_ref());
    }
    Params::read(&mut bytes.as_slice()).unwrap()
}

/// Parameters and keys of the value balance, made without a witness.
struct Setup {
    params: Params<vesta::Affine>,
    pk: ProvingKey<vesta::Affine>,
    vk: VerifyingKey<vesta::Affine>,
}

impl Setup {
    fn new() -> Self {
        let params = parameters();
        let empty = BalanceCircuit::default();
        let vk = keygen_vk(&params, &empty).unwrap();
        let pk = keygen_pk(&params, vk.clone(), &empty).unwrap();
        Self { params, pk, vk }
    }

    fn prove(&self, witness: balance::ValueBalanceCircuit) -> Vec<u8> {
        let public = fields(&[witness.sighash]);
        let mut transcript = Blake2bWrite::<_, vesta::Affine, Challenge255<_>>::init(vec![]);
        create_proof(&self.params, &self.pk, &[BalanceCircuit::from(witness)], &[&[&public]], OsRng, &mut transcript)
            .expect("proving failed");
        transcript.finalize()
    }

    fn verify(&self, proof: &[u8], sighash: Base) -> bool {
        let public = fields(&[sighash]);
        let mut transcript = Blake2bRead::<_, vesta::Affine, Challenge255<_>>::init(proof);
        verify_proof(&self.params, &self.vk, SingleVerifier::new(&self.params), &[&[&public]], &mut transcript).is_ok()
    }
}

/// Keys made without a witness fit a circuit with one.
#[test]
fn missing_witness_shape_matches_keygen() {
    let params = parameters();
    let empty = keygen_vk(&params, &BalanceCircuit::default()).unwrap();
    let full = keygen_vk(&params, &BalanceCircuit::from(balance_witness([1, 2], [3, 0], 4))).unwrap();
    assert_eq!(format!("{:?}", empty.pinned()), format!("{:?}", full.pinned()));
}

#[test]
fn real_proof_roundtrip() {
    let inputs = [Base::from(1_234_567u64), Base::from(7_654_321u64)];
    let outputs = [Base::from(8_000_000u64), Base::from(888_888u64)];
    let sighash = Base::from(0xdead_beefu64);
    let setup = Setup::new();

    let proof = setup.prove(prover::prove(inputs, outputs, sighash).expect("proving failed"));
    assert!(!proof.is_empty());
    println!("proof size: {} bytes", proof.len());
    assert!(setup.verify(&proof, sighash), "verification failed");
    assert!(!setup.verify(&proof, Base::from(1u64)), "verified under wrong sighash");
}

#[test]
fn ffi_roundtrip() {
    let to_le = |v: u64| Base::from(v).to_repr();
    let mut ins = Vec::new();
    ins.extend_from_slice(&to_le(500));
    ins.extend_from_slice(&to_le(500));
    let mut outs = Vec::new();
    outs.extend_from_slice(&to_le(999));
    outs.extend_from_slice(&to_le(1));
    let sighash = to_le(0x1234);
    let setup = Setup::new();

    let witness = ffi::prove(&ins, 2, &outs, 2, &sighash).unwrap();
    let proof = setup.prove(witness);
    assert!(!proof.is_empty());
    let public = ffi::field_from_bytes(&sighash).unwrap();
    assert_eq!(ffi::verify_code(setup.verify(&proof, public)), ffi::GRDZK_OK);
    assert_eq!(ffi::verify_code(setup.verify(&proof[1..], public)), ffi::GRDZK_ERR_VERIFY_FAILED);
}
