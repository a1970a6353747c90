//! Specifications of AI players, as given on the command line, and the outcomes AIs train for.
use vstd::prelude::*;

use crate::cli::Specified;
use crate::util::{decimal, spec_decimal, spec_digit};

verus! {

/// Where an AI's computations run.
#[derive(Clone, Copy, Debug, PartialEq, Eq, Hash, Structural)]
pub enum AiDevice {
    Best,
    Cpu,
    DiscreteGpu(usize),
}

impl AiDevice {
    /// The best device available.
    pub fn default() -> (d: AiDevice)
        ensures
            d == AiDevice::Best,
    {
        AiDevice::Best
    }
}

/// Which kind of action a model is trained for.
#[derive(Clone, Copy, Debug, PartialEq, Eq, Structural)]
pub enum TrainingFocus {
    City,
    Unit,
    UnitIfExistsElseCity,
}

/// How a game went for a player, as training data records it.
#[derive(Clone, Copy, Debug, PartialEq, Eq, Structural)]
pub enum TrainingOutcome {
    Victory,
    Defeat,
    Inconclusive,
}

impl TrainingOutcome {
    pub fn values() -> (v: [TrainingOutcome; 3])
        ensures
            v@ == seq![TrainingOutcome::Victory, TrainingOutcome::Defeat, TrainingOutcome::Inconclusive],
    {
        [TrainingOutcome::Victory, TrainingOutcome::Defeat, TrainingOutcome::Inconclusive]
    }
}

impl Specified for TrainingOutcome {
    open spec fn spec_readable(token: Seq<char>) -> bool {
        true
    }

    open spec fn spec_read(token: Seq<char>, r: Result<TrainingOutcome, String>) -> bool {
        if token == "v"@ {
            r == Ok::<TrainingOutcome, String>(TrainingOutcome::Victory)
        } else if token == "d"@ {
            r == Ok::<TrainingOutcome, String>(TrainingOutcome::Defeat)
        } else if token == "i"@ {
            r == Ok::<TrainingOutcome, String>(TrainingOutcome::Inconclusive)
        } else {
            r matches Err(e) && e@ == "Unrecognized training outcome '"@ + token + "'"@
        }
    }

    open spec fn spec_desc(&self) -> Seq<char> {
        match self {
            TrainingOutcome::Victory => "victory"@,
            TrainingOutcome::Defeat => "defeat"@,
            TrainingOutcome::Inconclusive => "inconclusive"@,
        }
    }

    open spec fn spec_spec(&self) -> Seq<char> {
        match self {
            TrainingOutcome::Victory => "v"@,
            TrainingOutcome::Defeat => "d"@,
            TrainingOutcome::Inconclusive => "i"@,
        }
    }

    fn try_from_spec(token: &str) -> (r: Result<TrainingOutcome, String>) {
        proof {
            reveal_strlit("v");
            reveal_strlit("d");
            reveal_strlit("i");
        }
        let n = token.unicode_len();
        if n == 1 {
            let c = token.get_char(0);
            if c == 'v' {
                proof {
                    assert(token@ =~= "v"@);
                }
                return Ok(TrainingOutcome::Victory);
            } else if c == 'd' {
                proof {
                    assert(token@ =~= "d"@);
                }
                return Ok(TrainingOutcome::Defeat);
            } else if c == 'i' {
                proof {
                    assert(token@ =~= "i"@);
                }
                return Ok(TrainingOutcome::Inconclusive);
            }
        }
        let mut e = String::from_str("Unrecognized training outcome '");
        e.append(token);
        e.append("'");
        Err(e)
    }

    fn readable(token: &str) -> (b: bool) {
        true
    }

    fn desc(&self) -> (s: String) {
        match self {
            TrainingOutcome::Victory => String::from_str("victory"),
            TrainingOutcome::Defeat => String::from_str("defeat"),
            TrainingOutcome::Inconclusive => String::from_str("inconclusive"),
        }
    }

    fn spec(&self) -> (s: String) {
        match self {
            TrainingOutcome::Victory => String::from_str("v"),
            TrainingOutcome::Defeat => String::from_str("d"),
            TrainingOutcome::Inconclusive => String::from_str("i"),
        }
    }
}

/// A user's specification of an AI.
#[derive(Clone, Debug, PartialEq, Eq, Hash)]
pub enum AISpec {
    /// An AI that makes decisions at random.
    Random { seed: Option<u64> },
    /// An AI that makes decisions at random, but skips and disbands less.
    RandomPlus { seed: Option<u64> },
    /// An AI that only ever skips unit actions, and sets the first possible production for cities.
    Skip,
    /// An AI loaded from a file.
    FromPath { path: String, device: AiDevice },
    /// An AI of a preset level, beginning at 1.
    FromLevel { level: usize, device: AiDevice },
}

pub open spec fn is_ascii_digit(c: char) -> bool {
    '0' <= c && c <= '9'
}

pub open spec fn all_ascii_digits(d: Seq<char>) -> bool {
    forall|i: int| 0 <= i < d.len() ==> is_ascii_digit(#[trigger] d[i])
}

/// The seed that the digits after a random AI's name give, if any.
pub open spec fn seed_text(d: Seq<char>) -> Option<Seq<char>> {
    if d.len() == 0 {
        None
    } else {
        Some(d)
    }
}

/// Does the text spell a random AI's name, `letter`, `letter` + "and" or `letter` + "andom", then decimal
/// digits, if any? If so, the digits, if there are any.
pub open spec fn random_form(letter: char, s: Seq<char>) -> Option<Option<Seq<char>>> {
    if s.len() >= 1 && s[0] == letter {
        let t = s.drop_first();
        if all_ascii_digits(t) {
            Some(seed_text(t))
        } else if t.len() >= 3 && t.take(3) == "and"@ && all_ascii_digits(t.skip(3)) {
            Some(seed_text(t.skip(3)))
        } else if t.len() >= 5 && t.take(5) == "andom"@ && all_ascii_digits(t.skip(5)) {
            Some(seed_text(t.skip(5)))
        } else {
            None
        }
    } else {
        None
    }
}

/// The pattern the `regex` crate matches random AIs' names with, for the given first letter.
pub open spec fn random_pattern(letter: char) -> Seq<char> {
    seq!['^', letter] + "(?:and(?:om)?)?(?:(?P<seed>[0-9]+))?$"@
}

/// The value of a sequence of decimal digits.
pub open spec fn decimal_value(d: Seq<char>) -> nat
    decreases d.len(),
{
    if d.len() == 0 {
        0
    } else {
        decimal_value(d.drop_last()) * 10 + digit_value(d.last())
    }
}

pub open spec fn digit_value(c: char) -> nat {
    ((c as int) - ('0' as int)) as nat
}

/// The seed a random AI's name gives, if any.
pub open spec fn seed_of(seed: Option<Seq<char>>) -> Option<u64> {
    match seed {
        Some(d) => Some(decimal_value(d) as u64),
        None => None,
    }
}

/// The text of what `seed_captures` found.
pub open spec fn captured_text(r: Option<Option<String>>) -> Option<Option<Seq<char>>> {
    match r {
        None => None,
        Some(None) => Some(None),
        Some(Some(t)) => Some(Some(t@)),
    }
}

/// Captures of a random AI's name in `s` with `regex::Regex::captures`: `None` when `s` does not match, else the
/// `seed` group's text if that group took part.
///
/// The contract states that the crate matches these anchored patterns, of literal letters, optional groups and
/// an ASCII digit class, as their text plainly reads.
#[verifier::external_body]
fn seed_captures(pattern: &str, s: &str) -> (r: Option<Option<String>>)
    requires
        pattern@ == random_pattern('r') || pattern@ == random_pattern('R'),
    ensures
        captured_text(r) == random_form(pattern@[1], s@),
{
    match regex::Regex::new(pattern).unwrap().captures(s) {
        None => None,
        Some(m) => Some(m.name("seed").map(|d| d.as_str().to_string())),
    }
}

/// Does a file or directory exist at `path`? Asks `std::path::Path::exists`; the answer depends on the disk.
#[verifier::external_body]
fn path_exists(path: &str) -> bool {
    std::path::Path::new(path).exists()
}

proof fn lemma_decimal_value_take(d: Seq<char>, k: int)
    requires
        0 <= k <= d.len(),
    ensures
        decimal_value(d.take(k)) <= decimal_value(d),
    decreases d.len() - k,
{
    if k < d.len() {
        lemma_decimal_value_take(d, k + 1);
        assert(d.take(k + 1).drop_last() =~= d.take(k));
    } else {
        assert(d.take(k) =~= d);
    }
}

/// Does the value of a sequence of decimal digits fit in a `u64`?
fn fits_u64(s: &str) -> (b: bool)
    requires
        all_ascii_digits(s@),
    ensures
        b == (decimal_value(s@) <= u64::MAX),
{
    let n = s.unicode_len();
    let mut v: u64 = 0;
    let mut k: usize = 0;
    while k < n
        invariant
            n == s@.len(),
            k <= n,
            all_ascii_digits(s@),
            v == decimal_value(s@.take(k as int)),
        decreases n - k,
    {
        let c = s.get_char(k);
        proof {
            assert(s@.take(k as int + 1).drop_last() =~= s@.take(k as int));
            assert(is_ascii_digit(s@[k as int]));
            lemma_decimal_value_take(s@, k as int + 1);
        }
        let digit = (c as u32 - '0' as u32) as u64;
        match v.checked_mul(10) {
            Some(t) => match t.checked_add(digit) {
                Some(w) => {
                    v = w;
                },
                None => {
                    return false;
                },
            },
            None => {
                proof {
                    assert(decimal_value(s@.take(k as int + 1)) >= v * 10);
                }
                return false;
            },
        }
        k = k + 1;
    }
    proof {
        assert(s@.take(n as int) =~= s@);
    }
    true
}

/// The value of a sequence of decimal digits that fits.
fn parse_decimal(s: &str) -> (v: u64)
    requires
        all_ascii_digits(s@),
        decimal_value(s@) <= u64::MAX,
    ensures
        v == decimal_value(s@),
{
    let n = s.unicode_len();
    let mut v: u64 = 0;
    let mut k: usize = 0;
    while k < n
        invariant
            n == s@.len(),
            k <= n,
            all_ascii_digits(s@),
            decimal_value(s@) <= u64::MAX,
            v == decimal_value(s@.take(k as int)),
        decreases n - k,
    {
        let c = s.get_char(k);
        proof {
            assert(s@.take(k as int + 1).drop_last() =~= s@.take(k as int));
            assert(is_ascii_digit(s@[k as int]));
            lemma_decimal_value_take(s@, k as int + 1);
        }
        let digit = (c as u32 - '0' as u32) as u64;
        v = v * 10 + digit;
        k = k + 1;
    }
    proof {
        assert(s@.take(n as int) =~= s@);
    }
    v
}

/// The seed given in digits, when it fits.
pub open spec fn seed_fits(f: Option<Option<Seq<char>>>) -> bool {
    f matches Some(Some(d)) ==> decimal_value(d) <= u64::MAX
}

impl AISpec {
    /// The text standing for the AI, with its seed in brackets if it has one.
    pub open spec fn seeded(name: Seq<char>, seed: Option<u64>) -> Seq<char> {
        match seed {
            Some(s) => name + "("@ + spec_decimal(s as nat) + ")"@,
            None => name,
        }
    }
}

impl AISpec {
    /// The canonical code of the AI: its letter, then its seed in digits if it has one.
    pub open spec fn seeded_code(letter: Seq<char>, seed: Option<u64>) -> Seq<char> {
        match seed {
            Some(s) => letter + spec_decimal(s as nat),
            None => letter,
        }
    }
}

fn seeded_code_text(letter: &str, seed: Option<u64>) -> (s: String)
    ensures
        s@ == AISpec::seeded_code(letter@, seed),
{
    let mut s = String::from_str(letter);
    if let Some(seed) = seed {
        let d = decimal(seed);
        s.append(d.as_str());
    }
    s
}

/// The digits of a number are ASCII digits, and read back as the number.
proof fn lemma_decimal_reads_back(n: nat)
    ensures
        all_ascii_digits(spec_decimal(n)),
        decimal_value(spec_decimal(n)) == n,
        spec_decimal(n).len() >= 1,
    decreases n,
{
    if n < 10 {
        assert(spec_decimal(n) =~= seq![spec_digit(n)]);
        assert(spec_decimal(n).drop_last() =~= Seq::<char>::empty());
        assert(digit_value(spec_digit(n)) == n);
        assert(decimal_value(spec_decimal(n)) == decimal_value(spec_decimal(n).drop_last()) * 10 + digit_value(spec_decimal(n).last()));
    } else {
        lemma_decimal_reads_back(n / 10);
        let d = spec_decimal(n);
        assert(d.drop_last() =~= spec_decimal(n / 10));
        assert(d.last() == spec_digit(n % 10));
        assert(digit_value(spec_digit(n % 10)) == n % 10);
        assert((n / 10) * 10 + n % 10 == n) by (nonlinear_arith);
        assert(decimal_value(d) == decimal_value(d.drop_last()) * 10 + digit_value(d.last()));
        assert forall|i: int| 0 <= i < d.len() implies is_ascii_digit(#[trigger] d[i]) by {
            if i < d.len() - 1 {
                assert(d[i] == spec_decimal(n / 10)[i]);
            }
        }
    }
}

/// What a token that names no built-in AI gives: the AI in the file it names, if there is such a file, else an
/// error that names the token.
pub fn ai_spec_from_unmatched(token: &str, exists: bool) -> (r: Result<AISpec, String>)
    ensures
        exists ==> (r matches Ok(AISpec::FromPath { path, device }) && path@ == token@ && device == AiDevice::Best),
        !exists ==> (r matches Err(e) && e@ == "Unrecognized AI specification '"@ + token@ + "'"@),
{
    if exists {
        Ok(AISpec::FromPath { path: String::from_str(token), device: AiDevice::default() })
    } else {
        let mut e = String::from_str("Unrecognized AI specification '");
        e.append(token);
        e.append("'");
        Err(e)
    }
}

fn seeded_text(name: &str, seed: Option<u64>) -> (s: String)
    ensures
        s@ == AISpec::seeded(name@, seed),
{
    let mut s = String::from_str(name);
    if let Some(seed) = seed {
        s.append("(");
        let d = decimal(seed);
        s.append(d.as_str());
        s.append(")");
    }
    s
}

impl Specified for AISpec {
    /// A seed written in digits must fit.
    open spec fn spec_readable(token: Seq<char>) -> bool {
        &&& seed_fits(random_form('r', token))
        &&& (random_form('r', token) is None ==> seed_fits(random_form('R', token)))
    }

    /// A random AI's name gives a random AI with the seed written after it; `R` for the better random AI; `s` the
    /// skipping AI; `0` and `1` the AI of that level. Anything else names a file holding an AI if there is such a
    /// file, and is an error if there is not.
    open spec fn spec_read(token: Seq<char>, r: Result<AISpec, String>) -> bool {
        match random_form('r', token) {
            Some(seed) => r == Ok::<AISpec, String>(AISpec::Random { seed: seed_of(seed) }),
            None => match random_form('R', token) {
                Some(seed) => r == Ok::<AISpec, String>(AISpec::RandomPlus { seed: seed_of(seed) }),
                None => if token == "s"@ {
                    r == Ok::<AISpec, String>(AISpec::Skip)
                } else if token == "0"@ {
                    r == Ok::<AISpec, String>(AISpec::FromLevel { level: 0, device: AiDevice::Best })
                } else if token == "1"@ {
                    r == Ok::<AISpec, String>(AISpec::FromLevel { level: 1, device: AiDevice::Best })
                } else {
                    ||| (r matches Ok(AISpec::FromPath { path, device }) && path@ == token && device == AiDevice::Best)
                    ||| (r matches Err(e) && e@ == "Unrecognized AI specification '"@ + token + "'"@)
                },
            },
        }
    }

    open spec fn spec_desc(&self) -> Seq<char> {
        match self {
            AISpec::Random { seed } => AISpec::seeded("random"@, *seed),
            AISpec::RandomPlus { seed } => AISpec::seeded("random+"@, *seed),
            AISpec::Skip => "skip"@,
            AISpec::FromPath { path, .. } => "AI from path "@ + path@,
            AISpec::FromLevel { level, .. } => "level "@ + spec_decimal(*level as nat) + " AI"@,
        }
    }

    open spec fn spec_spec(&self) -> Seq<char> {
        match self {
            AISpec::Random { seed } => AISpec::seeded_code("r"@, *seed),
            AISpec::RandomPlus { seed } => AISpec::seeded_code("R"@, *seed),
            AISpec::Skip => "s"@,
            AISpec::FromPath { path, .. } => path@,
            AISpec::FromLevel { level, .. } => spec_decimal(*level as nat),
        }
    }

    fn try_from_spec(token: &str) -> (r: Result<AISpec, String>) {
        let r_pattern = "^r(?:and(?:om)?)?(?:(?P<seed>[0-9]+))?$";
        let plus_pattern = "^R(?:and(?:om)?)?(?:(?P<seed>[0-9]+))?$";
        proof {
            reveal_strlit("^r(?:and(?:om)?)?(?:(?P<seed>[0-9]+))?$");
            reveal_strlit("^R(?:and(?:om)?)?(?:(?P<seed>[0-9]+))?$");
            reveal_strlit("(?:and(?:om)?)?(?:(?P<seed>[0-9]+))?$");
            assert(r_pattern@ =~= random_pattern('r'));
            assert(plus_pattern@ =~= random_pattern('R'));
        }
        if let Some(seed) = seed_captures(r_pattern, token) {
            let seed = match seed {
                Some(d) => Some(parse_decimal(d.as_str())),
                None => None,
            };
            return Ok(AISpec::Random { seed });
        }
        if let Some(seed) = seed_captures(plus_pattern, token) {
            let seed = match seed {
                Some(d) => Some(parse_decimal(d.as_str())),
                None => None,
            };
            return Ok(AISpec::RandomPlus { seed });
        }
        proof {
            reveal_strlit("s");
            reveal_strlit("0");
            reveal_strlit("1");
        }
        let n = token.unicode_len();
        if n == 1 {
            let c = token.get_char(0);
            if c == 's' {
                proof {
                    assert(token@ =~= "s"@);
                }
                return Ok(AISpec::Skip);
            } else if c == '0' {
                proof {
                    assert(token@ =~= "0"@);
                }
                return Ok(AISpec::FromLevel { level: 0, device: AiDevice::default() });
            } else if c == '1' {
                proof {
                    assert(token@ =~= "1"@);
                }
                return Ok(AISpec::FromLevel { level: 1, device: AiDevice::default() });
            }
        }
        ai_spec_from_unmatched(token, path_exists(token))
    }

    fn readable(token: &str) -> (b: bool) {
        let r_pattern = "^r(?:and(?:om)?)?(?:(?P<seed>[0-9]+))?$";
        let plus_pattern = "^R(?:and(?:om)?)?(?:(?P<seed>[0-9]+))?$";
        proof {
            reveal_strlit("^r(?:and(?:om)?)?(?:(?P<seed>[0-9]+))?$");
            reveal_strlit("^R(?:and(?:om)?)?(?:(?P<seed>[0-9]+))?$");
            reveal_strlit("(?:and(?:om)?)?(?:(?P<seed>[0-9]+))?$");
            assert(r_pattern@ =~= random_pattern('r'));
            assert(plus_pattern@ =~= random_pattern('R'));
        }
        match seed_captures(r_pattern, token) {
            Some(Some(d)) => fits_u64(d.as_str()),
            Some(None) => true,
            None => match seed_captures(plus_pattern, token) {
                Some(Some(d)) => fits_u64(d.as_str()),
                _ => true,
            },
        }
    }

    fn desc(&self) -> (s: String) {
        match self {
            AISpec::Random { seed } => seeded_text("random", *seed),
            AISpec::RandomPlus { seed } => seeded_text("random+", *seed),
            AISpec::Skip => String::from_str("skip"),
            AISpec::FromPath { path, .. } => {
                let mut s = String::from_str("AI from path ");
                s.append(path.as_str());
                s
            },
            AISpec::FromLevel { level, .. } => {
                let mut s = String::from_str("level ");
                let d = decimal(*level as u64);
                s.append(d.as_str());
                s.append(" AI");
                s
            },
        }
    }

    fn spec(&self) -> (s: String) {
        match self {
            AISpec::Random { seed } => seeded_code_text("r", *seed),
            AISpec::RandomPlus { seed } => seeded_code_text("R", *seed),
            AISpec::Skip => String::from_str("s"),
            AISpec::FromPath { path, .. } => path.clone(),
            AISpec::FromLevel { level, .. } => decimal(*level as u64),
        }
    }
}

impl AISpec {
    /// An AI not read from a file, with the best device, of a level that is written with one digit if it has one.
    pub open spec fn is_plain(self) -> bool {
        match self {
            AISpec::Random { .. } => true,
            AISpec::RandomPlus { .. } => true,
            AISpec::Skip => true,
            AISpec::FromPath { .. } => false,
            AISpec::FromLevel { level, device } => level <= 1 && device == AiDevice::Best,
        }
    }
}

/// The canonical text of a training outcome reads back as that outcome.
pub proof fn law_outcome_spec_reads_back(o: TrainingOutcome)
    ensures
        TrainingOutcome::spec_readable(o.spec_spec()),
        TrainingOutcome::spec_read(o.spec_spec(), Ok(o)),
{
    reveal_strlit("v");
    reveal_strlit("d");
    reveal_strlit("i");
    assert("d"@[0] != "v"@[0] && "i"@[0] != "v"@[0] && "i"@[0] != "d"@[0]);
}

/// The canonical text of an AI not read from a file, with no device other than the best, reads back as that
/// AI: `r` or `R` with its seed's digits if it has one, `s`, `0` and `1`.
pub proof fn law_ai_spec_reads_back(a: AISpec)
    requires
        a.is_plain(),
    ensures
        AISpec::spec_readable(a.spec_spec()),
        AISpec::spec_read(a.spec_spec(), Ok(a)),
{
    reveal_strlit("r");
    reveal_strlit("R");
    reveal_strlit("s");
    reveal_strlit("0");
    reveal_strlit("1");
    reveal_strlit("and");
    reveal_strlit("andom");
    let t = a.spec_spec();
    match a {
        AISpec::Random { seed } | AISpec::RandomPlus { seed } => {
            match seed {
                Some(n) => {
                    lemma_decimal_reads_back(n as nat);
                    assert(t.drop_first() =~= spec_decimal(n as nat));
                },
                None => {
                    assert(t.drop_first() =~= Seq::<char>::empty());
                },
            }
        },
        AISpec::FromLevel { .. } => {
            assert(spec_decimal(0) == "0"@) by {
                reveal_strlit("0");
            }
            assert(spec_decimal(1) == "1"@) by {
                reveal_strlit("1");
            }
        },
        _ => {},
    }
}

} // verus!
