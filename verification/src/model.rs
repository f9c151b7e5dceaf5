//! The bookkeeping of a model run: which spectra the configuration asked
//! for, whether the computation has run, which spectra can be read, and the
//! messages of the failures of loading and computing.

use vstd::prelude::*;

use crate::error::AmErr;
use crate::text::{push_char, trim, trimmed, views};

verus! {

/// The flag of an output table entry that marks the output as requested
/// by the configuration's `output` directive.
pub const OUTPUT_USER: i32 = 0x1;

/// The number of entries of the model's output table.
pub const OUTPUT_TABLE_LEN: usize = 14;

/// The spectra that a computed model can offer besides its frequency grid.
#[derive(Debug, Clone, Copy, PartialEq, Eq, Structural)]
pub enum Output {
    Opacity,
    Transmittance,
    Radiance,
    RadianceDiff,
    TbPlanck,
    TbRayleighJeans,
    Tsys,
    YFactor,
    Delay,
    FreeSpaceLoss,
    AbsorptionCoeff,
}

/// The entry of an output in the model's output table (entry 0 is the
/// frequency grid).
pub open spec fn table_index(o: Output) -> u32 {
    match o {
        Output::Opacity => 1,
        Output::Transmittance => 2,
        Output::Radiance => 3,
        Output::RadianceDiff => 4,
        Output::TbPlanck => 5,
        Output::TbRayleighJeans => 6,
        Output::Tsys => 7,
        Output::YFactor => 8,
        Output::Delay => 9,
        Output::FreeSpaceLoss => 10,
        Output::AbsorptionCoeff => 11,
    }
}

/// The Python-side name of an output.
pub open spec fn python_name(o: Output) -> Seq<char> {
    match o {
        Output::Opacity => "opacity"@,
        Output::Transmittance => "transmittance"@,
        Output::Radiance => "radiance"@,
        Output::RadianceDiff => "radiance_diff"@,
        Output::TbPlanck => "tb_planck"@,
        Output::TbRayleighJeans => "tb_rj"@,
        Output::Tsys => "tsys"@,
        Output::YFactor => "y_factor"@,
        Output::Delay => "delay"@,
        Output::FreeSpaceLoss => "free_space_loss"@,
        Output::AbsorptionCoeff => "absorption_coeff"@,
    }
}

/// All outputs, in the order in which the outputs dictionary lists them.
pub open spec fn all_outputs() -> Seq<Output> {
    seq![
        Output::Opacity,
        Output::Transmittance,
        Output::Radiance,
        Output::RadianceDiff,
        Output::TbPlanck,
        Output::TbRayleighJeans,
        Output::Tsys,
        Output::YFactor,
        Output::Delay,
        Output::FreeSpaceLoss,
        Output::AbsorptionCoeff,
    ]
}

impl Output {
    /// The output's entry in the model's output table.
    pub fn index(&self) -> (i: u32)
        ensures
            i == table_index(*self),
    {
        match self {
            Output::Opacity => 1,
            Output::Transmittance => 2,
            Output::Radiance => 3,
            Output::RadianceDiff => 4,
            Output::TbPlanck => 5,
            Output::TbRayleighJeans => 6,
            Output::Tsys => 7,
            Output::YFactor => 8,
            Output::Delay => 9,
            Output::FreeSpaceLoss => 10,
            Output::AbsorptionCoeff => 11,
        }
    }

    /// The output's Python-side name.
    pub fn name(&self) -> (s: &'static str)
        ensures
            s@ == python_name(*self),
    {
        match self {
            Output::Opacity => "opacity",
            Output::Transmittance => "transmittance",
            Output::Radiance => "radiance",
            Output::RadianceDiff => "radiance_diff",
            Output::TbPlanck => "tb_planck",
            Output::TbRayleighJeans => "tb_rj",
            Output::Tsys => "tsys",
            Output::YFactor => "y_factor",
            Output::Delay => "delay",
            Output::FreeSpaceLoss => "free_space_loss",
            Output::AbsorptionCoeff => "absorption_coeff",
        }
    }

    /// All outputs, in the order of `all_outputs`.
    pub fn all() -> (v: Vec<Output>)
        ensures
            v@ == all_outputs(),
    {
        let v = vec![
            Output::Opacity,
            Output::Transmittance,
            Output::Radiance,
            Output::RadianceDiff,
            Output::TbPlanck,
            Output::TbRayleighJeans,
            Output::Tsys,
            Output::YFactor,
            Output::Delay,
            Output::FreeSpaceLoss,
            Output::AbsorptionCoeff,
        ];
        assert(v@ =~= all_outputs());
        v
    }
}

/// Whether bit `i` of `mask` is set.
pub open spec fn bit_set(mask: u32, i: u32) -> bool {
    (mask >> i) & 1u32 == 1u32
}

proof fn lemma_bit_of_or(m: u32, i: u32, j: u32)
    requires
        i < 32,
        j < 32,
    ensures
        bit_set(m | (1u32 << i), j) <==> (bit_set(m, j) || i == j),
{
    assert(((m | (1u32 << i)) >> j) & 1u32 == 1u32 <==> (((m >> j) & 1u32 == 1u32) || i == j))
        by (bit_vector)
        requires
            i < 32,
            j < 32,
    ;
}

proof fn lemma_bit_of_zero(j: u32)
    requires
        j < 32,
    ensures
        !bit_set(0u32, j),
{
    assert((0u32 >> j) & 1u32 != 1u32) by (bit_vector);
}

proof fn lemma_bit_of_and(m: u32, i: u32)
    requires
        i < 32,
    ensures
        (m & (1u32 << i) != 0u32) <==> bit_set(m, i),
{
    assert((m & (1u32 << i) != 0u32) <==> ((m >> i) & 1u32 == 1u32)) by (bit_vector)
        requires
            i < 32,
    ;
}

/// Whether entry `i` of an output table with the given flags is requested.
pub open spec fn flagged(flags: Seq<i32>, i: int) -> bool {
    flags[i] & OUTPUT_USER != 0
}

/// The requested outputs of an output table as a bit mask: bit `i` is set
/// when entry `i`'s flags hold `OUTPUT_USER`.
pub fn requested_mask(flags: &[i32]) -> (mask: u32)
    requires
        flags@.len() == OUTPUT_TABLE_LEN,
    ensures
        forall|i: u32| i < 32 ==> (bit_set(mask, i) <==> (i < OUTPUT_TABLE_LEN && flagged(flags@, i as int))),
{
    let mut mask: u32 = 0;
    let mut i: u32 = 0;
    assert forall|j: u32| j < 32 implies !bit_set(mask, j) by {
        lemma_bit_of_zero(j);
    }
    while i < 14
        invariant
            i <= 14,
            flags@.len() == OUTPUT_TABLE_LEN,
            forall|j: u32| j < 32 ==> (bit_set(mask, j) <==> (j < i && flagged(flags@, j as int))),
        decreases 14 - i,
    {
        if flags[i as usize] & OUTPUT_USER != 0 {
            let old_mask = mask;
            mask = mask | (1u32 << i);
            assert forall|j: u32| j < 32 implies (bit_set(mask, j) <==> (j < i + 1 && flagged(flags@, j as int))) by {
                lemma_bit_of_or(old_mask, i, j);
            }
        }
        i = i + 1;
    }
    mask
}

/// The digit `d` (below ten) as a character.
pub open spec fn digit_char(d: int) -> char {
    seq!['0', '1', '2', '3', '4', '5', '6', '7', '8', '9'][d]
}

/// The decimal digits of `n`, most significant first, without leading zeros.
pub open spec fn decimal_digits(n: nat) -> Seq<char>
    decreases n,
{
    if n < 10 {
        seq![digit_char(n as int)]
    } else {
        decimal_digits(n / 10).push(digit_char((n % 10) as int))
    }
}

/// `n` written in decimal, with a leading `'-'` when it is negative.
pub open spec fn decimal(n: int) -> Seq<char> {
    if n < 0 {
        seq!['-'] + decimal_digits((-n) as nat)
    } else {
        decimal_digits(n as nat)
    }
}

/// `n` written in decimal (see `decimal`), as `n.to_string()` writes it.
pub fn decimal_string(n: i32) -> (s: String)
    ensures
        s@ == decimal(n as int),
{
    let table: [char; 10] = ['0', '1', '2', '3', '4', '5', '6', '7', '8', '9'];
    assert(table@ =~= seq!['0', '1', '2', '3', '4', '5', '6', '7', '8', '9']);
    let wide: i64 = n as i64;
    let mag: u64 = if wide < 0 {
        (-wide) as u64
    } else {
        wide as u64
    };
    let mut m: u64 = mag;
    let mut digits: Vec<char> = Vec::new();
    assert(decimal_digits(mag as nat) =~= decimal_digits(m as nat) + digits@);
    while m >= 10
        invariant
            table@ == seq!['0', '1', '2', '3', '4', '5', '6', '7', '8', '9'],
            decimal_digits(mag as nat) == decimal_digits(m as nat) + digits@,
        decreases m,
    {
        let d = table[(m % 10) as usize];
        let ghost before = digits@;
        digits.insert(0, d);
        assert(digits@ =~= seq![d] + before);
        assert(decimal_digits(m as nat) == decimal_digits((m / 10) as nat).push(
            digit_char((m % 10) as int),
        ));
        assert(decimal_digits(m as nat) + before =~= decimal_digits((m / 10) as nat) + digits@);
        m = m / 10;
    }
    let mut s = String::new();
    if n < 0 {
        push_char(&mut s, '-');
    }
    push_char(&mut s, table[m as usize]);
    let ghost head = s@;
    let k = digits.len();
    let mut i: usize = 0;
    while i < k
        invariant
            k == digits@.len(),
            i <= k,
            s@ == head + digits@.take(i as int),
        decreases k - i,
    {
        push_char(&mut s, digits[i]);
        i = i + 1;
        assert(s@ =~= head + digits@.take(i as int));
    }
    assert(digits@.take(k as int) =~= digits@);
    assert(decimal_digits(m as nat) == seq![digit_char(m as int)]);
    if n < 0 {
        assert(s@ =~= seq!['-'] + decimal_digits(mag as nat));
    } else {
        assert(s@ =~= decimal_digits(mag as nat));
    }
    s
}

/// The message of a failed call of the model library: the text that the
/// call printed, trimmed, or, when it printed nothing, a sentence that names
/// the call and its return code.
pub open spec fn failure_message(call: Seq<char>, code: int, printed: Seq<char>) -> Seq<char> {
    if printed.len() == 0 {
        call + " returned error code "@ + decimal(code)
    } else {
        trim(printed)
    }
}

/// The message of a failed call (see `failure_message`).
pub fn failure_text(call: &str, code: i32, printed: &str) -> (r: String)
    ensures
        r@ == failure_message(call@, code as int, printed@),
{
    if printed.is_empty() {
        let mut r = String::from_str(call);
        r.append(" returned error code ");
        let d = decimal_string(code);
        r.append(d.as_str());
        r
    } else {
        trimmed(printed)
    }
}

/// The state of a loaded model as far as its outputs go: the mask of the
/// outputs that the configuration requested (bit `i` for output table
/// entry `i`), and whether the computation has run successfully.
#[derive(Debug, Clone, Copy, PartialEq, Eq, Structural)]
pub struct ModelStatus {
    pub requested: u32,
    pub computed: bool,
}

/// Whether a model in state `st` offers output `o`, given whether the model
/// holds data for it.
pub open spec fn offers(st: ModelStatus, o: Output, has_data: bool) -> bool {
    st.computed && bit_set(st.requested, table_index(o)) && has_data
}

/// The error of a failed parse of a configuration.
pub open spec fn parse_error(code: int, printed: Seq<char>) -> Seq<char> {
    failure_message("parse_config_file"@, code, printed)
}

/// The error of a failed computation.
pub open spec fn compute_error(code: int, printed: Seq<char>) -> Seq<char> {
    failure_message("compute_model"@, code, printed)
}

impl ModelStatus {
    /// The state of a model after the configuration parser returned `code`,
    /// having printed `printed`, and left the output table with `flags`:
    /// a `Config` error when `code` is not zero, else a model that has not
    /// been computed and requests the flagged outputs.
    pub fn after_parse(code: i32, printed: &str, flags: &[i32]) -> (r: Result<ModelStatus, AmErr>)
        requires
            flags@.len() == OUTPUT_TABLE_LEN,
        ensures
            code != 0 ==> (r matches Err(AmErr::Config(m)) && m@ == parse_error(
                code as int,
                printed@,
            )),
            code == 0 ==> (r matches Ok(st) && !st.computed && forall|i: u32|
                i < 32 ==> (bit_set(st.requested, i) <==> (i < OUTPUT_TABLE_LEN && flagged(
                    flags@,
                    i as int,
                )))),
    {
        if code != 0 {
            return Err(AmErr::Config(failure_text("parse_config_file", code, printed)));
        }
        let requested = requested_mask(flags);
        Ok(ModelStatus { requested, computed: false })
    }

    /// Records that the computation returned `code`, having left `printed`
    /// in the error log: on zero the model counts as computed; otherwise a
    /// `Compute` error, and the state is left as it was.
    pub fn after_compute(&mut self, code: i32, printed: &str) -> (r: Result<(), AmErr>)
        ensures
            code == 0 ==> r is Ok && *final(self) == (ModelStatus {
                requested: old(self).requested,
                computed: true,
            }),
            code != 0 ==> (r matches Err(AmErr::Compute(m)) && m@ == compute_error(
                code as int,
                printed@,
            ) && *final(self) == *old(self)),
    {
        if code != 0 {
            return Err(AmErr::Compute(failure_text("compute_model", code, printed)));
        }
        self.computed = true;
        Ok(())
    }

    /// Whether output `o` can be read (see `offers`): only after a
    /// successful computation, only when the configuration requested it, and
    /// only when the model holds data for it.
    pub fn offers(&self, o: Output, has_data: bool) -> (b: bool)
        ensures
            b == offers(*self, o, has_data),
    {
        if !self.computed {
            return false;
        }
        let i = o.index();
        let hit = self.requested & (1u32 << i) != 0;
        proof {
            lemma_bit_of_and(self.requested, i);
        }
        hit && has_data
    }
}

/// The outputs among the first `k` of `all_outputs()` that a model in
/// state `st` offers, where `has_data[j]` tells whether it holds data for
/// the `j`-th, in the order of `all_outputs()`.
pub open spec fn offered_outputs(st: ModelStatus, has_data: Seq<bool>, k: int) -> Seq<Output>
    decreases k,
{
    if k <= 0 {
        Seq::<Output>::empty()
    } else {
        let before = offered_outputs(st, has_data, k - 1);
        if offers(st, all_outputs()[k - 1], has_data[k - 1]) {
            before.push(all_outputs()[k - 1])
        } else {
            before
        }
    }
}

impl ModelStatus {
    /// The outputs that the model offers, in the order of `all_outputs()`,
    /// where `has_data[j]` tells whether the model holds data for the
    /// `j`-th of them: the keys of the outputs dictionary.
    pub fn offered(&self, has_data: &[bool]) -> (v: Vec<Output>)
        requires
            has_data@.len() == all_outputs().len(),
        ensures
            v@ == offered_outputs(*self, has_data@, all_outputs().len() as int),
    {
        let all = Output::all();
        let mut v: Vec<Output> = Vec::new();
        let n = all.len();
        let mut k: usize = 0;
        while k < n
            invariant
                all@ == all_outputs(),
                n == all@.len(),
                has_data@.len() == n,
                k <= n,
                v@ == offered_outputs(*self, has_data@, k as int),
            decreases n - k,
        {
            if self.offers(all[k], has_data[k]) {
                v.push(all[k]);
            }
            k = k + 1;
        }
        v
    }
}

/// The arguments that the configuration parser is called with: the program
/// name `am`, the configuration's path, then the values that replace the
/// configuration's `%1`, `%2`, ... placeholders.
pub open spec fn parser_args(path: Seq<char>, args: Seq<Seq<char>>) -> Seq<Seq<char>> {
    seq!["am"@, path] + args
}

/// The message of a configuration path that is not valid UTF-8.
pub open spec fn bad_path_message() -> Seq<char> {
    "Path contains invalid UTF-8"@
}

/// The parser's arguments for the configuration at `path` (`None` when the
/// path is not valid UTF-8, which is a `Config` error) with the
/// substitution values `args`.
pub fn parser_argv(path: Option<&str>, args: &[String]) -> (r: Result<Vec<String>, AmErr>)
    ensures
        path is None ==> (r matches Err(AmErr::Config(m)) && m@ == bad_path_message()),
        path matches Some(p) ==> (r matches Ok(v) && views(v@) == parser_args(p@, views(args@))),
{
    let p = match path {
        Some(p) => p,
        None => {
            return Err(AmErr::Config(String::from_str("Path contains invalid UTF-8")));
        },
    };
    let mut v: Vec<String> = Vec::new();
    v.push(String::from_str("am"));
    v.push(String::from_str(p));
    let n = args.len();
    let mut i: usize = 0;
    proof {
        assert(views(v@) =~= parser_args(p@, views(args@).take(0)));
    }
    while i < n
        invariant
            n == args@.len(),
            i <= n,
            views(v@) == parser_args(p@, views(args@).take(i as int)),
        decreases n - i,
    {
        let ghost before = v@;
        v.push(args[i].clone());
        assert(views(v@) =~= views(before).push(args@[i as int]@));
        assert(views(v@) =~= parser_args(p@, views(args@).take(i + 1)));
        i = i + 1;
    }
    assert(views(args@).take(n as int) =~= views(args@));
    Ok(v)
}

/// After a successful computation, a model loaded from an output table
/// with `flags` offers exactly the outputs whose table entries carry
/// `OUTPUT_USER` and for which it holds data.
pub proof fn computed_model_offers_requested(flags: Seq<i32>, requested: u32, o: Output, has_data: bool)
    requires
        flags.len() == OUTPUT_TABLE_LEN,
        forall|i: u32|
            i < 32 ==> (bit_set(requested, i) <==> (i < OUTPUT_TABLE_LEN && flagged(flags, i as int))),
    ensures
        offers(ModelStatus { requested, computed: true }, o, has_data) <==> (flagged(
            flags,
            table_index(o) as int,
        ) && has_data),
{
    assert(table_index(o) < 32);
}

proof fn lemma_none_offered_before_compute(st: ModelStatus, has_data: Seq<bool>, k: int)
    requires
        !st.computed,
    ensures
        offered_outputs(st, has_data, k).len() == 0,
    decreases k,
{
    if k > 0 {
        lemma_none_offered_before_compute(st, has_data, k - 1);
    }
}

/// The outputs dictionary of a model that has not been computed is empty,
/// whatever data the model holds.
pub proof fn outputs_empty_before_compute(st: ModelStatus, has_data: Seq<bool>)
    requires
        !st.computed,
    ensures
        offered_outputs(st, has_data, all_outputs().len() as int).len() == 0,
{
    lemma_none_offered_before_compute(st, has_data, all_outputs().len() as int);
}

proof fn lemma_offered_members(st: ModelStatus, has_data: Seq<bool>, k: int, o: Output)
    requires
        0 <= k <= all_outputs().len(),
    ensures
        offered_outputs(st, has_data, k).contains(o) <==> exists|j: int|
            0 <= j < k && all_outputs()[j] == o && #[trigger] offers(st, o, has_data[j]),
    decreases k,
{
    if k > 0 {
        lemma_offered_members(st, has_data, k - 1, o);
        let before = offered_outputs(st, has_data, k - 1);
        if offers(st, all_outputs()[k - 1], has_data[k - 1]) {
            let x = all_outputs()[k - 1];
            let after = before.push(x);
            assert(after[before.len() as int] == x);
            if after.contains(o) && o != x {
                let i = choose|i: int| 0 <= i < after.len() && #[trigger] after[i] == o;
                assert(before[i] == o);
            }
            if before.contains(o) {
                let i = choose|i: int| 0 <= i < before.len() && #[trigger] before[i] == o;
                assert(after[i] == o);
            }
        }
    }
}

/// After a successful computation the outputs dictionary holds an output
/// exactly when the configuration requested it and the model holds data
/// for it.
pub proof fn computed_outputs_are_the_requested(st: ModelStatus, has_data: Seq<bool>, j: int)
    requires
        st.computed,
        has_data.len() == all_outputs().len(),
        0 <= j < all_outputs().len(),
    ensures
        offered_outputs(st, has_data, all_outputs().len() as int).contains(all_outputs()[j]) <==> (
        bit_set(st.requested, table_index(all_outputs()[j])) && has_data[j]),
{
    let o = all_outputs()[j];
    lemma_offered_members(st, has_data, all_outputs().len() as int, o);
    assert forall|i: int| 0 <= i < all_outputs().len() && all_outputs()[i] == o implies i == j by {
        assert(table_index(all_outputs()[i]) == i + 1);
        assert(table_index(all_outputs()[j]) == j + 1);
    }
    if bit_set(st.requested, table_index(o)) && has_data[j] {
        assert(offers(st, o, has_data[j]));
    }
}

} // verus!
