//! Genotype values of variant records: alleles separated by `/` (unphased)
//! or `|` (phased), each a position into the record's alleles or `.` when
//! missing.

use vstd::prelude::*;
use vstd::string::StrSliceExecFns;

verus! {

/// Whether an allele is phased with the one before it.
#[derive(Clone, Copy, Debug, PartialEq, Eq, Structural)]
pub enum Phasing {
    Phased,
    Unphased,
}

/// One allele of a genotype: its position, or `None` when missing, and its
/// phasing.
#[derive(Clone, Copy, Debug, PartialEq, Eq, Structural)]
pub struct Allele {
    pub position: Option<usize>,
    pub phasing: Phasing,
}

impl Allele {
    /// Creates an allele.
    pub fn new(position: Option<usize>, phasing: Phasing) -> (r: Allele)
        ensures
            r.position == position,
            r.phasing == phasing,
    {
        Allele { position, phasing }
    }

    /// The allele's position, or `None` when missing.
    pub fn position(&self) -> (r: Option<usize>)
        ensures
            r == self.position,
    {
        self.position
    }

    /// The allele's phasing.
    pub fn phasing(&self) -> (r: Phasing)
        ensures
            r == self.phasing,
    {
        self.phasing
    }
}

/// A genotype: a non-empty list of alleles.
#[derive(Clone, Debug, PartialEq, Eq)]
pub struct Genotype(Vec<Allele>);

/// Why a list of alleles is not a genotype.
#[derive(Clone, Copy, Debug, PartialEq, Eq, Structural)]
pub enum TryFromAllelesError {
    /// The list of alleles is empty.
    Empty,
    /// The phasing of the first allele is invalid.
    InvalidFirstAllelePhasing,
}

/// Why an allele could not be parsed.
#[derive(Clone, Copy, Debug, PartialEq, Eq, Structural)]
pub enum AlleleError {
    /// The allele is empty.
    Empty,
    /// The allele is neither `.` nor a position.
    InvalidPosition,
}

/// Why a genotype could not be parsed.
#[derive(Clone, Copy, Debug, PartialEq, Eq, Structural)]
pub enum ParseError {
    /// The input is empty.
    Empty,
    /// An allele is invalid.
    InvalidAllele(AlleleError),
}

impl View for Genotype {
    type V = Seq<Allele>;

    closed spec fn view(&self) -> Seq<Allele> {
        self.0@
    }
}

impl Genotype {
    /// Makes a genotype of `alleles`; fails when there are none.
    pub fn try_from(alleles: Vec<Allele>) -> (r: Result<Genotype, TryFromAllelesError>)
        ensures
            alleles@.len() == 0 <==> r == Err::<Genotype, TryFromAllelesError>(
                TryFromAllelesError::Empty,
            ),
            alleles@.len() > 0 ==> (r matches Ok(g) && g@ == alleles@),
    {
        if alleles.len() == 0 {
            Err(TryFromAllelesError::Empty)
        } else {
            Ok(Genotype(alleles))
        }
    }

    /// The alleles.
    pub fn alleles(&self) -> (r: &[Allele])
        ensures
            r@ == self@,
    {
        self.0.as_slice()
    }

    /// The number of alleles.
    pub fn len(&self) -> (r: usize)
        ensures
            r == self@.len(),
    {
        self.0.len()
    }
}

/// Whether `c` separates alleles.
pub open spec fn is_sep(c: char) -> bool {
    c == '/' || c == '|'
}

/// The phasing that separator `c` gives the allele after it.
pub open spec fn phasing_of(c: char) -> Phasing {
    if c == '|' {
        Phasing::Phased
    } else {
        Phasing::Unphased
    }
}

/// The text between separators, in order.
pub open spec fn tokens(s: Seq<char>) -> Seq<Seq<char>>
    decreases s.len(),
{
    if s.len() == 0 {
        seq![Seq::empty()]
    } else {
        let t = tokens(s.drop_last());
        if is_sep(s.last()) {
            t.push(Seq::empty())
        } else {
            t.update(t.len() - 1, t.last().push(s.last()))
        }
    }
}

/// The separators, in order.
pub open spec fn seps(s: Seq<char>) -> Seq<char>
    decreases s.len(),
{
    if s.len() == 0 {
        Seq::empty()
    } else {
        let x = seps(s.drop_last());
        if is_sep(s.last()) {
            x.push(s.last())
        } else {
            x
        }
    }
}

proof fn lemma_tokens_len(s: Seq<char>)
    ensures
        tokens(s).len() == seps(s).len() + 1,
    decreases s.len(),
{
    if s.len() > 0 {
        lemma_tokens_len(s.drop_last());
    }
}

/// Whether `c` is a decimal digit.
pub open spec fn is_digit(c: char) -> bool {
    '0' <= c <= '9'
}

/// The value of a string of decimal digits.
pub open spec fn digits_value(d: Seq<char>) -> nat
    decreases d.len(),
{
    if d.len() == 0 {
        0
    } else {
        digits_value(d.drop_last()) * 10 + (d.last() as nat - '0' as nat) as nat
    }
}

/// The digits of an allele position, past an optional `+`.
pub open spec fn position_digits(t: Seq<char>) -> Seq<char> {
    if t.len() > 0 && t[0] == '+' {
        t.subrange(1, t.len() as int)
    } else {
        t
    }
}

/// The allele that text `t` names: `.` is a missing position, digits (with
/// an optional `+`) a position that fits in `usize`.
pub open spec fn position_spec(t: Seq<char>) -> Result<Option<usize>, AlleleError> {
    let d = position_digits(t);
    if t.len() == 1 && t[0] == '.' {
        Ok(None)
    } else if t.len() == 0 {
        Err(AlleleError::Empty)
    } else if d.len() > 0 && (forall|i: int| 0 <= i < d.len() ==> is_digit(#[trigger] d[i]))
        && digits_value(d) <= usize::MAX {
        Ok(Some(digits_value(d) as usize))
    } else {
        Err(AlleleError::InvalidPosition)
    }
}

/// The index of the first allele's text: 1 when the genotype starts with a
/// separator, which then gives the first allele its phasing.
pub open spec fn first_index(s: Seq<char>) -> int {
    if is_sep(s[0]) {
        1
    } else {
        0
    }
}

/// The first allele's phasing: that of a leading separator; without one,
/// phased when every separator is `|` and unphased otherwise.
pub open spec fn first_phasing(s: Seq<char>) -> Phasing {
    if is_sep(s[0]) {
        phasing_of(s[0])
    } else if forall|i: int| 0 <= i < seps(s).len() ==> #[trigger] seps(s)[i] == '|' {
        Phasing::Phased
    } else {
        Phasing::Unphased
    }
}

/// The phasing of the allele whose text is token `k`.
pub open spec fn allele_phasing(s: Seq<char>, k: int) -> Phasing {
    if k == first_index(s) {
        first_phasing(s)
    } else {
        phasing_of(seps(s)[k - 1])
    }
}

/// The alleles of tokens `k` on, or the error of the first invalid one.
pub open spec fn alleles_from(s: Seq<char>, k: int) -> Result<Seq<Allele>, AlleleError>
    decreases tokens(s).len() - k,
{
    if k >= tokens(s).len() || k < 0 {
        Ok(Seq::empty())
    } else {
        match position_spec(tokens(s)[k]) {
            Err(e) => Err(e),
            Ok(p) => match alleles_from(s, k + 1) {
                Err(e) => Err(e),
                Ok(rest) => Ok(seq![Allele { position: p, phasing: allele_phasing(s, k) }] + rest),
            },
        }
    }
}

/// The alleles of genotype text `s`.
pub open spec fn parse_spec(s: Seq<char>) -> Result<Seq<Allele>, ParseError> {
    if s.len() == 0 {
        Err(ParseError::Empty)
    } else {
        match alleles_from(s, first_index(s)) {
            Ok(a) => Ok(a),
            Err(e) => Err(ParseError::InvalidAllele(e)),
        }
    }
}

/// Reads the allele that the text `t` names.
fn parse_position(t: &Vec<char>) -> (r: Result<Option<usize>, AlleleError>)
    ensures
        r == position_spec(t@),
{
    let n = t.len();
    if n == 1 && t[0] == '.' {
        return Ok(None);
    }
    if n == 0 {
        return Err(AlleleError::Empty);
    }
    let start: usize = if t[0] == '+' {
        1
    } else {
        0
    };
    let ghost d = position_digits(t@);
    proof {
        assert(d =~= t@.subrange(start as int, n as int));
    }
    if start == n {
        return Err(AlleleError::InvalidPosition);
    }
    let mut v: u128 = 0;
    let mut too_big = false;
    let mut i: usize = start;
    proof {
        assert(t@.subrange(start as int, start as int) =~= Seq::<char>::empty());
    }
    while i < n
        invariant
            n == t@.len(),
            start <= i <= n,
            d == t@.subrange(start as int, n as int),
            d == position_digits(t@),
            n > 0,
            !(n == 1 && t@[0] == '.'),
            forall|j: int| start <= j < i ==> is_digit(#[trigger] t@[j]),
            too_big <==> digits_value(t@.subrange(start as int, i as int)) > usize::MAX,
            !too_big ==> v == digits_value(t@.subrange(start as int, i as int)),
            v <= usize::MAX,
        decreases n - i,
    {
        let c = t[i];
        if !('0' <= c && c <= '9') {
            proof {
                assert(d[i - start] == c);
                assert(!is_digit(d[i - start]));
            }
            return Err(AlleleError::InvalidPosition);
        }
        let dgt = (c as u32 - '0' as u32) as u128;
        let ghost prev = t@.subrange(start as int, i as int);
        proof {
            assert(t@.subrange(start as int, i + 1).drop_last() =~= prev);
            assert(t@.subrange(start as int, i + 1).last() == c);
        }
        if !too_big {
            let nv = v * 10 + dgt;
            if nv > usize::MAX as u128 {
                too_big = true;
            } else {
                v = nv;
            }
        } else {
            proof {
                assert(digits_value(prev) * 10 >= digits_value(prev)) by (nonlinear_arith);
            }
        }
        i = i + 1;
    }
    proof {
        assert(t@.subrange(start as int, i as int) == d);
        assert forall|j: int| 0 <= j < d.len() implies is_digit(#[trigger] d[j]) by {
            assert(d[j] == t@[j + start]);
        }
    }
    if too_big {
        Err(AlleleError::InvalidPosition)
    } else {
        Ok(Some(v as usize))
    }
}

/// Cuts genotype text into the text of its alleles and its separators.
fn tokenize(cs: &Vec<char>) -> (r: (Vec<Vec<char>>, Vec<char>))
    ensures
        r.0@.len() == tokens(cs@).len(),
        forall|k: int| 0 <= k < r.0@.len() ==> #[trigger] r.0@[k]@ == tokens(cs@)[k],
        r.1@ == seps(cs@),
{
    let mut toks: Vec<Vec<char>> = Vec::new();
    toks.push(Vec::new());
    let mut sp: Vec<char> = Vec::new();
    let mut i: usize = 0;
    proof {
        assert(cs@.take(0) =~= Seq::<char>::empty());
        assert(toks@[0]@ =~= Seq::<char>::empty());
    }
    while i < cs.len()
        invariant
            i <= cs@.len(),
            toks@.len() == tokens(cs@.take(i as int)).len(),
            toks@.len() >= 1,
            forall|k: int| 0 <= k < toks@.len() ==> #[trigger] toks@[k]@ == tokens(cs@.take(i as int))[k],
            sp@ == seps(cs@.take(i as int)),
        decreases cs@.len() - i,
    {
        let c = cs[i];
        let ghost pre = cs@.take(i as int);
        proof {
            assert(cs@.take(i + 1).drop_last() =~= pre);
            assert(cs@.take(i + 1).last() == c);
        }
        if c == '/' || c == '|' {
            sp.push(c);
            toks.push(Vec::new());
            proof {
                assert forall|k: int| 0 <= k < toks@.len() implies #[trigger] toks@[k]@ == tokens(cs@.take(i + 1))[k] by {
                    if k == toks@.len() - 1 {
                        assert(toks@[k]@ =~= Seq::<char>::empty());
                    }
                }
            }
        } else {
            let last = toks.len() - 1;
            let ghost prev = toks@;
            toks[last].push(c);
            proof {
                assert forall|k: int| 0 <= k < toks@.len() implies #[trigger] toks@[k]@ == tokens(cs@.take(i + 1))[k] by {
                    if k != last {
                        assert(toks@[k] == prev[k]);
                    }
                }
            }
        }
        i = i + 1;
    }
    proof {
        assert(cs@.take(i as int) =~= cs@);
    }
    (toks, sp)
}

proof fn lemma_alleles_len(s: Seq<char>, k: int)
    requires
        0 <= k <= tokens(s).len(),
    ensures
        alleles_from(s, k) matches Ok(a) ==> a.len() == tokens(s).len() - k,
    decreases tokens(s).len() - k,
{
    if k < tokens(s).len() {
        lemma_alleles_len(s, k + 1);
    }
}

/// Parses genotype text such as `0/1`, `0|1`, `./.` or `|0/1`.
pub fn parse(s: &str) -> (r: Result<Genotype, ParseError>)
    ensures
        match parse_spec(s@) {
            Ok(a) => r matches Ok(g) && g@ == a && a.len() > 0,
            Err(e) => r == Err::<Genotype, ParseError>(e),
        },
{
    let n = s.unicode_len();
    if n == 0 {
        return Err(ParseError::Empty);
    }
    let mut cs: Vec<char> = Vec::new();
    let mut i: usize = 0;
    while i < n
        invariant
            n == s@.len(),
            i <= n,
            cs@ == s@.take(i as int),
        decreases n - i,
    {
        cs.push(s.get_char(i));
        i = i + 1;
        proof {
            assert(cs@ =~= s@.take(i as int));
        }
    }
    proof {
        assert(cs@ =~= s@);
    }
    let (toks, sp) = tokenize(&cs);
    proof {
        lemma_tokens_len(s@);
    }
    let c0 = cs[0];
    let lead = c0 == '/' || c0 == '|';
    let first: usize = if lead {
        1
    } else {
        0
    };
    let first_ph = if lead {
        if c0 == '|' {
            Phasing::Phased
        } else {
            Phasing::Unphased
        }
    } else {
        let mut all = true;
        let mut j: usize = 0;
        while j < sp.len()
            invariant
                j <= sp@.len(),
                all <==> forall|x: int| 0 <= x < j ==> #[trigger] sp@[x] == '|',
            decreases sp@.len() - j,
        {
            if sp[j] != '|' {
                all = false;
            }
            j = j + 1;
        }
        if all {
            Phasing::Phased
        } else {
            Phasing::Unphased
        }
    };
    let mut out: Vec<Allele> = Vec::new();
    let mut k: usize = first;
    proof {
        assert(out@ + Seq::<Allele>::empty() =~= out@);
        assert(lead ==> sp@.len() >= 1) by {
            if lead {
                assert(s@.take(1).drop_last() =~= Seq::<char>::empty());
                lemma_seps_first(s@);
            }
        }
        match alleles_from(s@, first as int) {
            Ok(a) => assert(Seq::<Allele>::empty() + a =~= a),
            Err(_) => {},
        }
    }
    while k < toks.len()
        invariant
            toks@.len() == tokens(s@).len(),
            forall|x: int| 0 <= x < toks@.len() ==> #[trigger] toks@[x]@ == tokens(s@)[x],
            sp@ == seps(s@),
            tokens(s@).len() == seps(s@).len() + 1,
            first == first_index(s@),
            first_ph == first_phasing(s@),
            first <= k <= toks@.len(),
            s@.len() > 0,
            alleles_from(s@, first as int) == (match alleles_from(s@, k as int) {
                Ok(rest) => Ok(out@ + rest),
                Err(e) => Err(e),
            }),
        decreases toks@.len() - k,
    {
        match parse_position(&toks[k]) {
            Err(e) => {
                proof {
                    assert(alleles_from(s@, k as int) == Err::<Seq<Allele>, AlleleError>(e));
                }
                return Err(ParseError::InvalidAllele(e));
            },
            Ok(p) => {
                let ph = if k == first {
                    first_ph
                } else if sp[k - 1] == '|' {
                    Phasing::Phased
                } else {
                    Phasing::Unphased
                };
                let a = Allele { position: p, phasing: ph };
                let ghost prev = out@;
                out.push(a);
                proof {
                    assert(a == (Allele { position: p, phasing: allele_phasing(s@, k as int) }));
                    match alleles_from(s@, k + 1) {
                        Ok(rest) => assert(prev + (seq![a] + rest) =~= out@ + rest),
                        Err(_) => {},
                    }
                }
            },
        }
        k = k + 1;
    }
    proof {
        assert(out@ + Seq::<Allele>::empty() =~= out@);
        lemma_alleles_len(s@, first as int);
    }
    Ok(Genotype(out))
}

/// A sequence that starts with a separator has that separator first.
proof fn lemma_seps_first(s: Seq<char>)
    requires
        s.len() > 0,
        is_sep(s[0]),
    ensures
        seps(s).len() >= 1,
        seps(s)[0] == s[0],
    decreases s.len(),
{
    if s.len() == 1 {
        assert(s.drop_last() =~= Seq::<char>::empty());
    } else {
        assert(s.drop_last()[0] == s[0]);
        lemma_seps_first(s.drop_last());
        assert(seps(s.drop_last())[0] == s[0]);
    }
}

impl std::str::FromStr for Genotype {
    type Err = ParseError;

    fn from_str(s: &str) -> (r: Result<Genotype, ParseError>)
        ensures
            match parse_spec(s@) {
                Ok(a) => r matches Ok(g) && g@ == a && a.len() > 0,
                Err(e) => r == Err::<Genotype, ParseError>(e),
            },
    {
        parse(s)
    }
}

} // verus!
