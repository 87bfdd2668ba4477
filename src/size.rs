//! Turning size specifications ("1 GB", "1.5 gb", "150") into exact byte
//! thresholds.
use vstd::prelude::*;
use vstd::arithmetic::div_mod::{
    lemma_div_denominator,
    lemma_div_multiples_vanish_quotient,
    lemma_hoist_over_denominator,
    lemma_multiply_divide_lt,
};
use crate::text::{
    all_digits,
    chars_of,
    digit_cap,
    digit_value,
    digits_saturating,
    digits_value,
    is_digit,
    is_space,
    is_space_char,
    same_text,
    trim_text,
    trimmed,
};

verus! {

pub const BYTES_PER_KB: u64 = 1024;

pub const BYTES_PER_MB: u64 = 1048576;

pub const BYTES_PER_GB: u64 = 1073741824;

/// The whitespace-separated words of `s`, in order, as `str::split_whitespace`
/// yields them.
pub open spec fn words(s: Seq<char>) -> Seq<Seq<char>>
    decreases s.len(),
{
    if s.len() == 0 {
        seq![]
    } else {
        let w = words(s.drop_last());
        let c = s.last();
        if is_space(c) {
            w
        } else if s.len() >= 2 && !is_space(s[s.len() - 2]) {
            w.update(w.len() - 1, w.last().push(c))
        } else {
            w.push(seq![c])
        }
    }
}

/// The multiplier that a unit word stands for: binary multiples of a byte.
pub open spec fn unit_multiplier(u: Seq<char>) -> Option<u64> {
    if u == seq!['B'] {
        Some(1)
    } else if u == seq!['K', 'B'] {
        Some(BYTES_PER_KB)
    } else if u == seq!['M', 'B'] {
        Some(BYTES_PER_MB)
    } else if u == seq!['G', 'B'] {
        Some(BYTES_PER_GB)
    } else {
        None
    }
}

/// The index of the first `.` in `t`, or its length when there is none.
pub open spec fn dot_index(t: Seq<char>) -> int
    decreases t.len(),
{
    if t.len() == 0 {
        0
    } else if t[0] == '.' {
        0
    } else {
        1 + dot_index(t.skip(1))
    }
}

/// The digits before the decimal point.
pub open spec fn whole_digits(t: Seq<char>) -> Seq<char> {
    t.take(dot_index(t))
}

/// The digits after the decimal point (none when there is no point).
pub open spec fn fraction_digits(t: Seq<char>) -> Seq<char> {
    if dot_index(t) < t.len() {
        t.skip(dot_index(t) + 1)
    } else {
        seq![]
    }
}

/// Whether `t` is a plain decimal number: digits with at most one decimal
/// point, and at least one digit.
pub open spec fn is_decimal(t: Seq<char>) -> bool {
    &&& all_digits(whole_digits(t))
    &&& all_digits(fraction_digits(t))
    &&& whole_digits(t).len() + fraction_digits(t).len() > 0
}

pub open spec fn pow10(n: nat) -> nat
    decreases n,
{
    if n == 0 {
        1
    } else {
        10 * pow10((n - 1) as nat)
    }
}

/// The decimal number `t` times `m`, rounded toward zero.
pub open spec fn scaled_quantity(t: Seq<char>, m: nat) -> nat {
    digits_value(whole_digits(t)) * m + (digits_value(fraction_digits(t)) * m) / pow10(
        fraction_digits(t).len(),
    )
}

/// `n` as a `u64` (for `n >= 0`), or `u64::MAX` where it does not fit.
pub open spec fn clamp_u64(n: int) -> u64 {
    if n > u64::MAX {
        u64::MAX
    } else {
        n as u64
    }
}

/// The byte count that the unsigned decimal `t` gives in units of `m` bytes.
pub open spec fn unsigned_quantity_bytes(t: Seq<char>, m: u64) -> Option<u64> {
    if is_decimal(t) {
        Some(clamp_u64(scaled_quantity(t, m as nat) as int))
    } else {
        None
    }
}

/// The length of the optional sign (`+` or `-`) that begins `t`.
pub open spec fn sign_len(t: Seq<char>) -> int {
    if t.len() > 0 && (t[0] == '+' || t[0] == '-') {
        1
    } else {
        0
    }
}

/// The byte count that the quantity word `t` gives in units of `m` bytes: an
/// optional sign, then a decimal number; a negative quantity gives 0.
pub open spec fn quantity_bytes(t: Seq<char>, m: u64) -> Option<u64> {
    match unsigned_quantity_bytes(t.skip(sign_len(t)), m) {
        Some(b) => Some(if t[0] == '-' {
            0
        } else {
            b
        }),
        None => None,
    }
}

/// The byte count of an upper-cased size text: one quantity word (megabytes),
/// or a quantity word and a unit word; anything else has none.
pub open spec fn size_text_bytes(s: Seq<char>) -> Option<u64> {
    let w = words(s);
    if w.len() == 1 {
        quantity_bytes(w[0], BYTES_PER_MB)
    } else if w.len() == 2 {
        match unit_multiplier(w[1]) {
            Some(m) => quantity_bytes(w[0], m),
            None => None,
        }
    } else {
        None
    }
}

/// The views of a sequence of character vectors.
pub open spec fn word_views(v: Seq<Vec<char>>) -> Seq<Seq<char>> {
    v.map_values(|w: Vec<char>| w@)
}

/// Splits `cs` into its whitespace-separated words.
fn split_words(cs: &Vec<char>) -> (r: Vec<Vec<char>>)
    ensures
        word_views(r@) == words(cs@),
{
    let mut done: Vec<Vec<char>> = Vec::new();
    let mut cur: Vec<char> = Vec::new();
    let n = cs.len();
    let mut i: usize = 0;
    proof {
        assert(cs@.take(0) =~= Seq::<char>::empty());
    }
    while i < n
        invariant
            n == cs.len(),
            i <= n,
            cur@.len() > 0 <==> (i > 0 && !is_space(cs@[i - 1])),
            words(cs@.take(i as int)) == if cur@.len() > 0 {
                word_views(done@).push(cur@)
            } else {
                word_views(done@)
            },
        decreases n - i,
    {
        let c = cs[i];
        let ghost before = cs@.take(i as int);
        let ghost after = cs@.take(i + 1);
        proof {
            assert(after.drop_last() =~= before);
            assert(after.last() == c);
        }
        if is_space_char(c) {
            if cur.len() > 0 {
                let ghost old_done = done@;
                let w = cur;
                done.push(w);
                cur = Vec::new();
                proof {
                    assert(done@.drop_last() =~= old_done);
                    assert(word_views(done@) =~= word_views(old_done).push(w@));
                }
            }
        } else {
            let ghost prev_views = word_views(done@);
            cur.push(c);
            proof {
                if i > 0 && !is_space(cs@[i - 1]) {
                    assert(after[after.len() - 2] == cs@[i - 1]);
                    assert(prev_views.push(cur@.drop_last()).update(
                        prev_views.len() as int,
                        cur@,
                    ) =~= prev_views.push(cur@));
                    assert(cur@.drop_last().push(c) =~= cur@);
                } else {
                    assert(cur@ =~= seq![c]);
                    if i > 0 {
                        assert(after[after.len() - 2] == cs@[i - 1]);
                    }
                }
            }
        }
        i = i + 1;
    }
    if cur.len() > 0 {
        let ghost old_done = done@;
        let ghost last = cur@;
        done.push(cur);
        proof {
            assert(done@.drop_last() =~= old_done);
            assert(word_views(done@) =~= word_views(old_done).push(last));
        }
    }
    proof {
        assert(cs@.take(n as int) =~= cs@);
    }
    done
}

proof fn lemma_dot_index(t: Seq<char>, p: int)
    requires
        0 <= p <= t.len(),
        p == t.len() || t[p] == '.',
        forall|k: int| 0 <= k < p ==> t[k] != '.',
    ensures
        dot_index(t) == p,
    decreases p,
{
    if p > 0 {
        lemma_dot_index(t.skip(1), p - 1);
    }
}

proof fn lemma_pow10_positive(n: nat)
    ensures
        pow10(n) > 0,
    decreases n,
{
    if n > 0 {
        lemma_pow10_positive((n - 1) as nat);
    }
}

proof fn lemma_digits_prepend(c: char, s: Seq<char>)
    ensures
        digits_value(seq![c] + s) == digit_value(c) * pow10(s.len()) + digits_value(s),
    decreases s.len(),
{
    let t = seq![c] + s;
    if s.len() == 0 {
        assert(t.drop_last() =~= Seq::<char>::empty());
        assert(t.last() == c);
        assert(pow10(0) == 1);
        assert(digit_value(c) * 1 == digit_value(c));
        assert(digits_value(t) == digits_value(t.drop_last()) * 10 + digit_value(t.last()));
        assert(digits_value(s) == 0);
    } else {
        assert(t.drop_last() =~= seq![c] + s.drop_last());
        assert(t.last() == s.last());
        lemma_digits_prepend(c, s.drop_last());
        let p = pow10((s.len() - 1) as nat);
        assert(pow10(s.len()) == 10 * p);
        let d = digit_value(c);
        let v = digits_value(s.drop_last());
        assert((d * p + v) * 10 == d * (10 * p) + v * 10) by (nonlinear_arith);
        assert(digits_value(t) == digits_value(t.drop_last()) * 10 + digit_value(t.last()));
        assert(digits_value(s) == v * 10 + digit_value(s.last()));
    }
}

proof fn lemma_digits_bound(s: Seq<char>)
    requires
        all_digits(s),
    ensures
        digits_value(s) < pow10(s.len()),
    decreases s.len(),
{
    if s.len() > 0 {
        let r = s.drop_last();
        assert(all_digits(r)) by {
            assert forall|i: int| 0 <= i < r.len() implies is_digit(#[trigger] r[i]) by {
                assert(r[i] == s[i]);
            }
        }
        lemma_digits_bound(r);
        assert(is_digit(s[s.len() - 1]));
        let v = digits_value(r);
        let p = pow10(r.len());
        let d = digit_value(s.last());
        assert(v * 10 + d < 10 * p) by (nonlinear_arith)
            requires
                v < p,
                d < 10,
        ;
    }
}

/// Ten times the share of `m` that the fraction digits `s` stand for,
/// rounded down.
spec fn tenfold_share(s: Seq<char>, m: nat) -> nat {
    (10 * m * digits_value(s)) / pow10(s.len())
}

proof fn lemma_tenfold_share_step(c: char, s: Seq<char>, m: nat)
    ensures
        tenfold_share(seq![c] + s, m) == m * digit_value(c) + tenfold_share(s, m) / 10,
{
    let k = s.len();
    let t = seq![c] + s;
    lemma_digits_prepend(c, s);
    lemma_pow10_positive(k);
    let p = pow10(k);
    let d = digit_value(c);
    let v = digits_value(s);
    assert(pow10(t.len()) == 10 * p);
    let x = 10 * m * v;
    assert(10 * m * digits_value(t) == x + (m * d) * (10 * p)) by (nonlinear_arith)
        requires
            digits_value(t) == d * p + v,
            x == 10 * m * v,
    ;
    assert(x >= 0) by (nonlinear_arith);
    lemma_hoist_over_denominator(x as int, (m * d) as int, (10 * p) as nat);
    lemma_div_denominator(x as int, p as int, 10);
}

proof fn lemma_tenfold_share_bound(s: Seq<char>, m: nat)
    requires
        all_digits(s),
        m > 0,
    ensures
        tenfold_share(s, m) < 10 * m,
{
    lemma_digits_bound(s);
    lemma_pow10_positive(s.len());
    let p = pow10(s.len());
    let v = digits_value(s);
    assert(10 * m * v < (10 * m) * p) by (nonlinear_arith)
        requires
            v < p,
            m > 0,
    ;
    lemma_multiply_divide_lt((10 * m * v) as int, p as int, (10 * m) as int);
}

proof fn lemma_fraction_from_share(s: Seq<char>, m: nat)
    ensures
        tenfold_share(s, m) / 10 == (digits_value(s) * m) / pow10(s.len()),
{
    lemma_pow10_positive(s.len());
    let p = pow10(s.len());
    let a = digits_value(s) * m;
    assert(10 * m * digits_value(s) == 10 * a) by (nonlinear_arith)
        requires
            a == digits_value(s) * m,
    ;
    assert(a >= 0) by (nonlinear_arith)
        requires
            a == digits_value(s) * m,
    ;
    lemma_div_denominator(10 * a as int, p as int, 10);
    lemma_div_multiples_vanish_quotient(10, a as int, p as int);
    assert(p * 10 == 10 * p);
}

/// The byte count that the quantity word `t` gives in units of `m` bytes.
fn quantity_in_units(t: &Vec<char>, m: u64) -> (r: Option<u64>)
    requires
        1 <= m <= BYTES_PER_GB,
    ensures
        r == quantity_bytes(t@, m),
{
    let n = t.len();
    let negative = n > 0 && t[0] == '-';
    let start: usize = if n > 0 && (t[0] == '+' || t[0] == '-') {
        1
    } else {
        0
    };
    let mut body: Vec<char> = Vec::new();
    let mut i: usize = start;
    proof {
        assert(t@.subrange(start as int, start as int) =~= Seq::<char>::empty());
    }
    while i < n
        invariant
            start <= i <= n == t.len(),
            body@ == t@.subrange(start as int, i as int),
        decreases n - i,
    {
        body.push(t[i]);
        proof {
            assert(body@ =~= t@.subrange(start as int, i + 1));
        }
        i = i + 1;
    }
    proof {
        assert(body@ =~= t@.skip(sign_len(t@)));
    }
    match unsigned_quantity_in_units(&body, m) {
        Some(b) => if negative {
            Some(0)
        } else {
            Some(b)
        },
        None => None,
    }
}

/// The byte count that the unsigned decimal `t` gives in units of `m` bytes,
/// computed exactly.
fn unsigned_quantity_in_units(t: &Vec<char>, m: u64) -> (r: Option<u64>)
    requires
        1 <= m <= BYTES_PER_GB,
    ensures
        r == unsigned_quantity_bytes(t@, m),
{
    let n = t.len();
    let mut p: usize = 0;
    while p < n && t[p] != '.'
        invariant
            p <= n == t.len(),
            forall|k: int| 0 <= k < p ==> t@[k] != '.',
        decreases n - p,
    {
        p = p + 1;
    }
    proof {
        lemma_dot_index(t@, p as int);
    }
    let fs: usize = if p < n {
        p + 1
    } else {
        n
    };
    let ghost whole = t@.subrange(0, p as int);
    let ghost frac = t@.subrange(fs as int, n as int);
    proof {
        assert(whole =~= whole_digits(t@));
        assert(frac =~= fraction_digits(t@));
    }
    if p + (n - fs) == 0 {
        return None;
    }
    let mut i: usize = 0;
    while i < n
        invariant
            n == t.len(),
            p <= n,
            fs == if p < n {
                p + 1
            } else {
                n as int
            },
            i <= n,
            whole == t@.subrange(0, p as int),
            frac == t@.subrange(fs as int, n as int),
            whole == whole_digits(t@),
            frac == fraction_digits(t@),
            forall|k: int| 0 <= k < i && k != p ==> is_digit(t@[k]),
        decreases n - i,
    {
        if i != p && !(t[i] >= '0' && t[i] <= '9') {
            proof {
                if i < p {
                    assert(!is_digit(whole[i as int]));
                } else {
                    assert(!is_digit(frac[i - fs]));
                }
            }
            return None;
        }
        i = i + 1;
    }
    proof {
        assert forall|k: int| 0 <= k < whole.len() implies is_digit(#[trigger] whole[k]) by {
            assert(whole[k] == t@[k]);
        }
        assert forall|k: int| 0 <= k < frac.len() implies is_digit(#[trigger] frac[k]) by {
            assert(frac[k] == t@[fs + k]);
        }
    }
    let w = digits_saturating(t, 0, p);
    let mut q: u64 = 0;
    let mut j: usize = n;
    proof {
        assert(t@.subrange(n as int, n as int) =~= Seq::<char>::empty());
        assert(tenfold_share(Seq::<char>::empty(), m as nat) == 0) by {
            assert(digits_value(Seq::<char>::empty()) == 0);
            assert(pow10(0) == 1);
            assert(10 * m * 0 == 0) by (nonlinear_arith);
        }
    }
    while j > fs
        invariant
            fs <= j <= n == t.len(),
            1 <= m <= BYTES_PER_GB,
            frac == t@.subrange(fs as int, n as int),
            all_digits(frac),
            q == tenfold_share(t@.subrange(j as int, n as int), m as nat),
            q < 10 * m,
        decreases j,
    {
        let ghost tail = t@.subrange(j as int, n as int);
        let ghost longer = t@.subrange(j - 1, n as int);
        proof {
            assert(longer =~= seq![t@[j - 1]] + tail);
            assert(t@[j - 1] == frac[j - 1 - fs]);
            lemma_tenfold_share_step(t@[j - 1], tail, m as nat);
            assert(all_digits(longer)) by {
                assert forall|k: int| 0 <= k < longer.len() implies is_digit(#[trigger] longer[k]) by {
                    assert(longer[k] == frac[j - 1 - fs + k]);
                }
            }
            lemma_tenfold_share_bound(longer, m as nat);
        }
        let d = (t[j - 1] as u32 - '0' as u32) as u64;
        assert(m * d <= 9 * BYTES_PER_GB) by (nonlinear_arith)
            requires
                m <= BYTES_PER_GB,
                d <= 9,
        ;
        q = m * d + q / 10;
        j = j - 1;
    }
    proof {
        lemma_fraction_from_share(frac, m as nat);
    }
    let part = q / 10;
    assert((w as int) * (m as int) <= 0x1_0000_0000_0000_0000 * 0x4000_0000) by (nonlinear_arith)
        requires
            w <= 0x1_0000_0000_0000_0000int,
            m <= 0x4000_0000,
    ;
    let total: u128 = (w as u128) * (m as u128) + (part as u128);
    proof {
        let wv = digits_value(whole);
        let f = (digits_value(frac) * m) as int / pow10(frac.len()) as int;
        assert(scaled_quantity(t@, m as nat) == wv * m + f);
        if wv > digit_cap() {
            assert(w as nat == digit_cap());
            assert(wv * m >= wv) by (nonlinear_arith)
                requires
                    m >= 1,
            ;
        }
    }
    if total > 0xffff_ffff_ffff_ffffu128 {
        Some(u64::MAX)
    } else {
        Some(total as u64)
    }
}

/// The unit multiplier that the word `u` names.
fn unit_in_bytes(u: &Vec<char>) -> (r: Option<u64>)
    ensures
        r == unit_multiplier(u@),
{
    if u.len() == 1 && u[0] == 'B' {
        assert(u@ =~= seq!['B']);
        Some(1)
    } else if u.len() == 2 && u[1] == 'B' && (u[0] == 'K' || u[0] == 'M' || u[0] == 'G') {
        if u[0] == 'K' {
            assert(u@ =~= seq!['K', 'B']);
            Some(BYTES_PER_KB)
        } else if u[0] == 'M' {
            assert(u@ =~= seq!['M', 'B']);
            Some(BYTES_PER_MB)
        } else {
            assert(u@ =~= seq!['G', 'B']);
            Some(BYTES_PER_GB)
        }
    } else {
        proof {
            if u@.len() == 1 {
                assert(u@[0] != seq!['B'][0]);
            }
            if u@.len() == 2 {
                assert(u@[0] != seq!['K', 'B'][0] || u@[1] != seq!['K', 'B'][1]);
                assert(u@[0] != seq!['M', 'B'][0] || u@[1] != seq!['M', 'B'][1]);
                assert(u@[0] != seq!['G', 'B'][0] || u@[1] != seq!['G', 'B'][1]);
            }
        }
        None
    }
}

fn size_text_chars_bytes(cs: &Vec<char>) -> (r: Option<u64>)
    ensures
        r == size_text_bytes(cs@),
{
    let w = split_words(cs);
    proof {
        assert(w@.len() == words(cs@).len());
    }
    if w.len() == 1 {
        proof {
            assert(word_views(w@)[0] == w@[0]@);
        }
        quantity_in_units(&w[0], BYTES_PER_MB)
    } else if w.len() == 2 {
        proof {
            assert(word_views(w@)[0] == w@[0]@);
            assert(word_views(w@)[1] == w@[1]@);
        }
        match unit_in_bytes(&w[1]) {
            Some(m) => quantity_in_units(&w[0], m),
            None => None,
        }
    } else {
        None
    }
}

/// The byte count of an already upper-cased size text such as "1.5 GB" or
/// "150" (megabytes); `None` where the text has another shape.
pub fn bytes_from_size_text(text: &str) -> (r: Option<u64>)
    ensures
        r == size_text_bytes(text@),
{
    let cs = chars_of(text);
    size_text_chars_bytes(&cs)
}

/// What `str::to_uppercase` returns for a string with the characters `s`.
pub uninterp spec fn upper_of(s: Seq<char>) -> Seq<char>;

/// Relies on `str::to_uppercase`: the upper-case mapping of `s`, which
/// depends on its characters alone.
#[verifier::external_body]
fn uppercase(s: &str) -> (r: String)
    ensures
        r@ == upper_of(s@),
{
    s.to_uppercase()
}

/// The byte count that a typed size text gives: trimmed, upper-cased, then
/// read as `size_text_bytes` says.
pub open spec fn human_input_bytes(s: Seq<char>) -> Option<u64> {
    size_text_bytes(upper_of(trimmed(s)))
}

/// Parses a size typed by a person ("500 MB", "1.5 gb", "150"); `None` where
/// it cannot be read.
pub fn parse_human_input_to_bytes(input_string: &str) -> (r: Option<u64>)
    ensures
        r == human_input_bytes(input_string@),
{
    let t = trim_text(input_string);
    let up = uppercase(t.as_str());
    bytes_from_size_text(up.as_str())
}

/// The threshold that a size option label selects; for "Custom", the custom
/// text's byte count, or 0 where there is none or it cannot be read.
pub open spec fn filter_option_bytes(option: Seq<char>, custom: Option<Seq<char>>) -> u64 {
    if option == "100 MB"@ {
        (100 * BYTES_PER_MB) as u64
    } else if option == "500 MB"@ {
        (500 * BYTES_PER_MB) as u64
    } else if option == "1 GB"@ {
        BYTES_PER_GB
    } else if option == "5 GB"@ {
        (5 * BYTES_PER_GB) as u64
    } else if option == "Custom"@ {
        match custom {
            Some(t) => match human_input_bytes(t) {
                Some(b) => b,
                None => 0,
            },
            None => 0,
        }
    } else {
        0
    }
}

/// The byte threshold that the size option `option_label` selects.
pub fn parse_filter_option(option_label: &str, custom_text: Option<&str>) -> (r: u64)
    ensures
        r == filter_option_bytes(
            option_label@,
            match custom_text {
                Some(t) => Some(t@),
                None => None,
            },
        ),
{
    if same_text(option_label, "100 MB") {
        100 * BYTES_PER_MB
    } else if same_text(option_label, "500 MB") {
        500 * BYTES_PER_MB
    } else if same_text(option_label, "1 GB") {
        BYTES_PER_GB
    } else if same_text(option_label, "5 GB") {
        5 * BYTES_PER_GB
    } else if same_text(option_label, "Custom") {
        match custom_text {
            Some(t) => match parse_human_input_to_bytes(t) {
                Some(b) => b,
                None => 0,
            },
            None => 0,
        }
    } else {
        0
    }
}

/// The size thresholds offered for selection.
#[derive(Clone, Copy, Debug, PartialEq, Eq, Structural)]
pub enum SizeOption {
    Mb100,
    Mb500,
    Gb1,
    Gb5,
    Custom,
}

impl SizeOption {
    pub open spec fn label_view(self) -> Seq<char> {
        match self {
            SizeOption::Mb100 => "100 MB"@,
            SizeOption::Mb500 => "500 MB"@,
            SizeOption::Gb1 => "1 GB"@,
            SizeOption::Gb5 => "5 GB"@,
            SizeOption::Custom => "Custom"@,
        }
    }

    /// The label under which the option is shown.
    pub fn label(&self) -> (r: &'static str)
        ensures
            r@ == self.label_view(),
    {
        match self {
            SizeOption::Mb100 => "100 MB",
            SizeOption::Mb500 => "500 MB",
            SizeOption::Gb1 => "1 GB",
            SizeOption::Gb5 => "5 GB",
            SizeOption::Custom => "Custom",
        }
    }

    /// Every option, in the order in which they are offered.
    pub fn all() -> (r: Vec<SizeOption>)
        ensures
            r@ == seq![
                SizeOption::Mb100,
                SizeOption::Mb500,
                SizeOption::Gb1,
                SizeOption::Gb5,
                SizeOption::Custom,
            ],
    {
        let r = vec![
            SizeOption::Mb100,
            SizeOption::Mb500,
            SizeOption::Gb1,
            SizeOption::Gb5,
            SizeOption::Custom,
        ];
        assert(r@ =~= seq![
            SizeOption::Mb100,
            SizeOption::Mb500,
            SizeOption::Gb1,
            SizeOption::Gb5,
            SizeOption::Custom,
        ]);
        r
    }

    /// The option whose label is `text`, if any.
    pub fn from_label(text: &str) -> (r: Option<SizeOption>)
        ensures
            match r {
                Some(o) => o.label_view() == text@,
                None => forall|o: SizeOption| o.label_view() != text@,
            },
    {
        let options = SizeOption::all();
        let mut i: usize = 0;
        while i < options.len()
            invariant
                options@ == seq![
                    SizeOption::Mb100,
                    SizeOption::Mb500,
                    SizeOption::Gb1,
                    SizeOption::Gb5,
                    SizeOption::Custom,
                ],
                i <= options.len(),
                forall|k: int| 0 <= k < i ==> options@[k].label_view() != text@,
            decreases options.len() - i,
        {
            let o = options[i];
            if same_text(o.label(), text) {
                return Some(o);
            }
            i = i + 1;
        }
        proof {
            assert forall|o: SizeOption| o.label_view() != text@ by {
                match o {
                    SizeOption::Mb100 => assert(options@[0] == o),
                    SizeOption::Mb500 => assert(options@[1] == o),
                    SizeOption::Gb1 => assert(options@[2] == o),
                    SizeOption::Gb5 => assert(options@[3] == o),
                    SizeOption::Custom => assert(options@[4] == o),
                }
            }
        }
        None
    }

    pub fn is_custom(&self) -> (r: bool)
        ensures
            r == (*self == SizeOption::Custom),
    {
        match self {
            SizeOption::Custom => true,
            _ => false,
        }
    }

    pub open spec fn threshold(self, custom: Option<Seq<char>>) -> u64 {
        match self {
            SizeOption::Custom => filter_option_bytes(
                "Custom"@,
                Some(
                    trimmed(
                        match custom {
                            Some(t) => t,
                            None => Seq::empty(),
                        },
                    ),
                ),
            ),
            _ => filter_option_bytes(self.label_view(), None),
        }
    }

    /// The byte threshold that the option selects; the custom option reads
    /// `custom_text` (trimmed; missing counts as empty).
    pub fn min_bytes(&self, custom_text: Option<&str>) -> (r: u64)
        ensures
            r == self.threshold(
                match custom_text {
                    Some(t) => Some(t@),
                    None => None,
                },
            ),
    {
        match self {
            SizeOption::Custom => {
                let raw: &str = match custom_text {
                    Some(t) => t,
                    None => "",
                };
                proof {
                    reveal_strlit("");
                    assert(raw@ =~= match custom_text {
                        Some(t) => t@,
                        None => Seq::empty(),
                    });
                }
                let text = trim_text(raw);
                let r = parse_filter_option("Custom", Some(text.as_str()));
                assert(r == filter_option_bytes("Custom"@, Some(text@)));
                r
            },
            _ => parse_filter_option(self.label(), None),
        }
    }
}

} // verus!
