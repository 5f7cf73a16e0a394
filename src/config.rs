use vstd::prelude::*;

verus! {

/// Context length a model gets when its configuration names none.
pub fn default_max_position_embeddings() -> (r: usize)
    ensures
        r == 4096,
{
    4096
}

/// Axis along which a half-quadratic quantizer groups weights.
#[derive(Debug, Clone, Copy, PartialEq, Eq, Structural)]
pub enum HqqAxis {
    Zero,
    One,
}

impl HqqAxis {
    pub open spec fn spec_index(self) -> nat {
        match self {
            HqqAxis::Zero => 0,
            HqqAxis::One => 1,
        }
    }

    /// The tensor dimension this axis names.
    pub fn index(&self) -> (r: usize)
        ensures
            r == self.spec_index(),
    {
        match self {
            HqqAxis::Zero => 0,
            HqqAxis::One => 1,
        }
    }
}

/// Bit width of a half-quadratic quantized weight.
#[derive(Debug, Clone, Copy, PartialEq, Eq, Structural)]
pub enum HqqBits {
    Eight,
    Four,
    Three,
    Two,
    One,
}

impl HqqBits {
    pub open spec fn spec_bits(self) -> nat {
        match self {
            HqqBits::Eight => 8,
            HqqBits::Four => 4,
            HqqBits::Three => 3,
            HqqBits::Two => 2,
            HqqBits::One => 1,
        }
    }

    /// Number of bits each quantized weight occupies.
    pub fn bits(&self) -> (r: u8)
        ensures
            r == self.spec_bits(),
    {
        match self {
            HqqBits::Eight => 8,
            HqqBits::Four => 4,
            HqqBits::Three => 3,
            HqqBits::Two => 2,
            HqqBits::One => 1,
        }
    }
}

/// `radix` to the power `k`.
pub open spec fn radix_pow(radix: nat, k: nat) -> nat
    decreases k,
{
    if k == 0 {
        1
    } else {
        radix_pow(radix, (k - 1) as nat) * radix
    }
}

/// `vals` read as the digits of a number in base `radix`, most significant
/// first: the packed word of a band of quantized weights.
pub open spec fn packed_value(radix: nat, vals: Seq<u32>) -> nat
    decreases vals.len(),
{
    if vals.len() == 0 {
        0
    } else {
        (packed_value(radix, vals.drop_last()) * radix + vals.last()) as nat
    }
}

impl HqqBits {
    /// Values one quantized weight can take: two to the number of bits.
    pub open spec fn spec_radix(self) -> nat {
        match self {
            HqqBits::Eight => 256,
            HqqBits::Four => 16,
            HqqBits::Three => 8,
            HqqBits::Two => 4,
            HqqBits::One => 2,
        }
    }

    /// Weights packed into one word: a byte for eight, four, two and one
    /// bits, a 32-bit word holding ten weights for three bits.
    pub open spec fn spec_parts(self) -> nat {
        match self {
            HqqBits::Eight => 1,
            HqqBits::Four => 2,
            HqqBits::Three => 10,
            HqqBits::Two => 4,
            HqqBits::One => 8,
        }
    }

    /// Rows of the packed matrix: for three bits the rows are padded with
    /// zeros up to a multiple of ten, otherwise leftover rows are dropped.
    pub open spec fn spec_step(self, rows: nat) -> nat {
        if self is Three {
            (rows + 9) / 10
        } else {
            rows / self.spec_parts()
        }
    }

    /// Weight `k` of the band that packs into row `r`, column `c`: row
    /// `k * step + r` of `wq`, or zero in the padding.
    pub open spec fn band(self, wq: Seq<u8>, rows: nat, cols: nat, r: int, c: int) -> Seq<u32> {
        Seq::new(
            self.spec_parts(),
            |k: int|
                {
                    let row = k * self.spec_step(rows) + r;
                    if row < rows {
                        wq[row * cols + c] as u32
                    } else {
                        0u32
                    }
                },
        )
    }

    proof fn lemma_capacity(self)
        ensures
            radix_pow(self.spec_radix(), self.spec_parts()) <= 0x4000_0000,
    {
        reveal_with_fuel(radix_pow, 2);
        match self {
            HqqBits::Eight => {
                assert(radix_pow(256, 1) == 256);
            },
            HqqBits::Four => {
                assert(radix_pow(16, 1) == 16);
                assert(radix_pow(16, 2) == 256);
            },
            HqqBits::Three => {
                assert(radix_pow(8, 1) == 8);
                assert(radix_pow(8, 2) == 64);
                assert(radix_pow(8, 3) == 512);
                assert(radix_pow(8, 4) == 4096);
                assert(radix_pow(8, 5) == 32768);
                assert(radix_pow(8, 6) == 262144);
                assert(radix_pow(8, 7) == 2097152);
                assert(radix_pow(8, 8) == 16777216);
                assert(radix_pow(8, 9) == 134217728);
                assert(radix_pow(8, 10) == 1073741824);
            },
            HqqBits::Two => {
                assert(radix_pow(4, 1) == 4);
                assert(radix_pow(4, 2) == 16);
                assert(radix_pow(4, 3) == 64);
                assert(radix_pow(4, 4) == 256);
            },
            HqqBits::One => {
                assert(radix_pow(2, 1) == 2);
                assert(radix_pow(2, 2) == 4);
                assert(radix_pow(2, 3) == 8);
                assert(radix_pow(2, 4) == 16);
                assert(radix_pow(2, 5) == 32);
                assert(radix_pow(2, 6) == 64);
                assert(radix_pow(2, 7) == 128);
                assert(radix_pow(2, 8) == 256);
            },
        }
    }

    /// Packs quantized weights (`rows` by `cols`, row-major, each below the
    /// radix) band by band: the rows split into `parts` bands of `step`
    /// rows, and entry `(r, c)` of the result holds the `parts` weights at
    /// row `r` of each band as the digits of one word, the first band most
    /// significant. The result is `step` by `cols`, row-major.
    pub fn bitpack(&self, wq: &Vec<u8>, rows: usize, cols: usize) -> (out: Vec<u32>)
        requires
            wq.len() == rows * cols,
            rows + 9 <= usize::MAX,
            forall|i: int| 0 <= i < wq.len() ==> (#[trigger] wq@[i]) < self.spec_radix(),
        ensures
            out.len() == self.spec_step(rows as nat) * cols,
            forall|i: int|
                0 <= i < out.len() ==> #[trigger] out@[i] == packed_value(
                    self.spec_radix(),
                    self.band(wq@, rows as nat, cols as nat, i / cols as int, i % cols as int),
                ),
    {
        let (radix, parts): (u32, usize) = match self {
            HqqBits::Eight => (256, 1),
            HqqBits::Four => (16, 2),
            HqqBits::Three => (8, 10),
            HqqBits::Two => (4, 4),
            HqqBits::One => (2, 8),
        };
        let step: usize = match self {
            HqqBits::Three => (rows + 9) / 10,
            _ => rows / parts,
        };
        proof {
            self.lemma_capacity();
            assert(step * parts <= rows + 9) by (nonlinear_arith)
                requires
                    parts > 0,
                    step as int == (if parts == 10 { (rows + 9) as int / 10 } else { rows as int / parts as int }),
            ;
        }
        let mut out: Vec<u32> = Vec::new();
        let mut r: usize = 0;
        while r < step
            invariant
                r <= step,
                radix as nat == self.spec_radix(),
                parts as nat == self.spec_parts(),
                step as nat == self.spec_step(rows as nat),
                step * parts <= rows + 9,
                wq.len() == rows * cols,
                rows + 9 <= usize::MAX,
                radix_pow(self.spec_radix(), self.spec_parts()) <= 0x4000_0000,
                forall|i: int| 0 <= i < wq.len() ==> (#[trigger] wq@[i]) < self.spec_radix(),
                out.len() == r * cols,
                forall|i: int|
                    0 <= i < out.len() ==> #[trigger] out@[i] == packed_value(
                        self.spec_radix(),
                        self.band(wq@, rows as nat, cols as nat, i / cols as int, i % cols as int),
                    ),
            decreases step - r,
        {
            let mut c: usize = 0;
            while c < cols
                invariant
                    r < step,
                    c <= cols,
                    radix as nat == self.spec_radix(),
                    parts as nat == self.spec_parts(),
                    step as nat == self.spec_step(rows as nat),
                    step * parts <= rows + 9,
                    wq.len() == rows * cols,
                    rows + 9 <= usize::MAX,
                    radix_pow(self.spec_radix(), self.spec_parts()) <= 0x4000_0000,
                    forall|i: int| 0 <= i < wq.len() ==> (#[trigger] wq@[i]) < self.spec_radix(),
                    out.len() == r * cols + c,
                    forall|i: int|
                        0 <= i < out.len() ==> #[trigger] out@[i] == packed_value(
                            self.spec_radix(),
                            self.band(wq@, rows as nat, cols as nat, i / cols as int, i % cols as int),
                        ),
                decreases cols - c,
            {
                let ghost digits = self.band(wq@, rows as nat, cols as nat, r as int, c as int);
                let mut acc: u32 = 0;
                let mut k: usize = 0;
                while k < parts
                    invariant
                        k <= parts,
                        r < step,
                        c < cols,
                        radix as nat == self.spec_radix(),
                        parts as nat == self.spec_parts(),
                        step as nat == self.spec_step(rows as nat),
                        step * parts <= rows + 9,
                        wq.len() == rows * cols,
                        rows + 9 <= usize::MAX,
                        radix_pow(self.spec_radix(), self.spec_parts()) <= 0x4000_0000,
                        forall|i: int| 0 <= i < wq.len() ==> (#[trigger] wq@[i]) < self.spec_radix(),
                        digits == self.band(wq@, rows as nat, cols as nat, r as int, c as int),
                        acc == packed_value(self.spec_radix(), digits.subrange(0, k as int)),
                        acc < radix_pow(self.spec_radix(), k as nat),
                    decreases parts - k,
                {
                    proof {
                        assert(k * step + r < rows + 9) by (nonlinear_arith)
                            requires
                                k < parts,
                                r < step,
                                step * parts <= rows + 9,
                        ;
                    }
                    let row = k * step + r;
                    let v: u32 = if row < rows {
                        proof {
                            assert(row * cols + c < rows * cols) by (nonlinear_arith)
                                requires
                                    row < rows,
                                    c < cols,
                            ;
                        }
                        wq[row * cols + c] as u32
                    } else {
                        0
                    };
                    proof {
                        assert(v == digits[k as int]);
                        let p = radix_pow(self.spec_radix(), k as nat);
                        assert(radix_pow(self.spec_radix(), (k + 1) as nat) == p * radix);
                        assert(acc * radix + v < p * radix) by (nonlinear_arith)
                            requires
                                acc < p,
                                v < radix,
                        ;
                        lemma_radix_pow_mono(self.spec_radix(), (k + 1) as nat, self.spec_parts());
                        assert(digits.subrange(0, k + 1).drop_last() =~= digits.subrange(0, k as int));
                    }
                    acc = acc * radix + v;
                    k = k + 1;
                }
                proof {
                    assert(digits.subrange(0, parts as int) =~= digits);
                    let i = out.len() as int;
                    assert(i == r * cols + c);
                    vstd::arithmetic::div_mod::lemma_fundamental_div_mod_converse(i, cols as int, r as int, c as int);
                }
                out.push(acc);
                c = c + 1;
            }
            proof {
                assert((r + 1) * cols == r * cols + cols) by (nonlinear_arith);
            }
            r = r + 1;
        }
        proof {
            assert(out.len() == step * cols);
        }
        out
    }
}

proof fn lemma_radix_pow_mono(radix: nat, a: nat, b: nat)
    requires
        radix >= 1,
        a <= b,
    ensures
        radix_pow(radix, a) <= radix_pow(radix, b),
    decreases b,
{
    if a < b {
        lemma_radix_pow_mono(radix, a, (b - 1) as nat);
        assert(radix_pow(radix, (b - 1) as nat) <= radix_pow(radix, (b - 1) as nat) * radix) by (nonlinear_arith)
            requires
                radix >= 1,
        ;
    }
}

/// Settings of a half-quadratic quantizer.
#[derive(Debug, Clone, Copy)]
pub struct HqqConfig {
    pub bits: HqqBits,
    /// Number of weights sharing one scale and zero point; never zero.
    pub group_size: usize,
    pub axis: HqqAxis,
    pub optimization_steps: Option<usize>,
    pub round_zeros: bool,
    pub channel_wise: bool,
}

impl HqqConfig {
    pub open spec fn wf(self) -> bool {
        self.group_size > 0
    }
}

/// Kind of a tool offered to the model.
#[derive(Debug, Clone, Copy, PartialEq, Eq, Structural)]
pub enum ToolType {
    Function,
}

/// Conditions that end generation when met by the sampled output.
#[derive(Debug, Clone)]
pub enum StopTokens {
    /// Stop when the decoded text contains one of these strings.
    Seqs(Vec<String>),
    /// Stop when one of these token ids is sampled.
    Ids(Vec<u32>),
}

/// An added-token entry of a tokenizer configuration.
#[derive(Debug, Clone)]
pub struct AddedTokensDecoder {
    pub kind: Option<String>,
    pub content: String,
    pub lstrip: bool,
    pub normalized: bool,
    pub rstrip: bool,
    pub single_word: bool,
    pub special: Option<bool>,
}

} // verus!
