//! Text handling for the record formats: trimming, splitting and integer
//! parsing, over sequences of characters.

use vstd::prelude::*;
use vstd::std_specs::iter::IteratorSpec;

verus! {

broadcast use vstd::string::group_string_axioms;

/// `s` without its leading `c`s (`str::trim_start_matches` with a char).
pub open spec fn trim_start(s: Seq<char>, c: char) -> Seq<char>
    decreases s.len(),
{
    if s.len() > 0 && s[0] == c {
        trim_start(s.drop_first(), c)
    } else {
        s
    }
}

/// `s` without its trailing `c`s (`str::trim_end_matches` with a char).
pub open spec fn trim_end(s: Seq<char>, c: char) -> Seq<char>
    decreases s.len(),
{
    if s.len() > 0 && s.last() == c {
        trim_end(s.drop_last(), c)
    } else {
        s
    }
}

/// `pat` occurs in `s` at `i`.
pub open spec fn occurs_at(s: Seq<char>, pat: Seq<char>, i: int) -> bool {
    0 <= i && i + pat.len() <= s.len() && s.subrange(i, i + pat.len()) == pat
}

/// The first position at which `pat` occurs in `s`, searching from `from`.
pub open spec fn find_from(s: Seq<char>, pat: Seq<char>, from: int) -> Option<int>
    decreases s.len() + 1 - from,
{
    if from < 0 || from + pat.len() > s.len() {
        None
    } else if occurs_at(s, pat, from) {
        Some(from)
    } else {
        find_from(s, pat, from + 1)
    }
}

/// The pieces of `s` between the non-overlapping occurrences of `pat`, found
/// from the left (`str::split` with a non-empty pattern).
pub open spec fn split_by(s: Seq<char>, pat: Seq<char>) -> Seq<Seq<char>>
    decreases s.len(),
{
    if pat.len() == 0 {
        seq![s]
    } else {
        match find_from(s, pat, 0) {
            None => seq![s],
            Some(i) => if 0 <= i && i + pat.len() <= s.len() {
                seq![s.take(i)] + split_by(s.skip(i + pat.len()), pat)
            } else {
                seq![s]
            },
        }
    }
}

/// Trimming the front keeps a suffix: `s` is some `c`s followed by the result,
/// and the result does not start with `c`.
pub proof fn law_trim_start(s: Seq<char>, c: char)
    ensures
        trim_start(s, c).len() <= s.len(),
        s.skip(s.len() - trim_start(s, c).len()) == trim_start(s, c),
        forall|i: int| 0 <= i < s.len() - trim_start(s, c).len() ==> #[trigger] s[i] == c,
        trim_start(s, c).len() > 0 ==> trim_start(s, c)[0] != c,
    decreases s.len(),
{
    if s.len() > 0 && s[0] == c {
        law_trim_start(s.drop_first(), c);
        let t = trim_start(s, c);
        assert(s.skip(s.len() - t.len()) =~= s.drop_first().skip(s.drop_first().len() - t.len()));
        assert forall|i: int| 0 <= i < s.len() - t.len() implies #[trigger] s[i] == c by {
            if i > 0 {
                assert(s[i] == s.drop_first()[i - 1]);
            }
        }
    } else {
        assert(s.skip(0) =~= s);
    }
}

/// Trimming the back keeps a prefix: `s` is the result followed by some `c`s,
/// and the result does not end with `c`.
pub proof fn law_trim_end(s: Seq<char>, c: char)
    ensures
        trim_end(s, c).len() <= s.len(),
        s.take(trim_end(s, c).len() as int) == trim_end(s, c),
        forall|i: int| trim_end(s, c).len() <= i < s.len() ==> #[trigger] s[i] == c,
        trim_end(s, c).len() > 0 ==> trim_end(s, c).last() != c,
    decreases s.len(),
{
    if s.len() > 0 && s.last() == c {
        law_trim_end(s.drop_last(), c);
        let t = trim_end(s, c);
        assert(s.take(t.len() as int) =~= s.drop_last().take(t.len() as int));
        assert forall|i: int| t.len() <= i < s.len() implies #[trigger] s[i] == c by {
            if i < s.len() - 1 {
                assert(s[i] == s.drop_last()[i]);
            }
        }
    } else {
        assert(s.take(s.len() as int) =~= s);
    }
}

/// The pieces joined with `sep` between each two (`[str]::join`).
pub open spec fn join(parts: Seq<Seq<char>>, sep: Seq<char>) -> Seq<char>
    decreases parts.len(),
{
    if parts.len() == 0 {
        Seq::empty()
    } else if parts.len() == 1 {
        parts[0]
    } else {
        parts[0] + sep + join(parts.drop_first(), sep)
    }
}

/// `pat` occurs nowhere in `s`.
pub open spec fn free_of(s: Seq<char>, pat: Seq<char>) -> bool {
    forall|j: int| !#[trigger] occurs_at(s, pat, j)
}

/// The search from `from` finds the first occurrence at or after `from`.
pub proof fn lemma_find_from(s: Seq<char>, pat: Seq<char>, from: int)
    requires
        0 <= from,
    ensures
        find_from(s, pat, from) is None ==> forall|j: int| from <= j ==> !#[trigger] occurs_at(s, pat, j),
        find_from(s, pat, from) matches Some(i) ==> from <= i && occurs_at(s, pat, i)
            && forall|j: int| from <= j < i ==> !#[trigger] occurs_at(s, pat, j),
    decreases s.len() + 1 - from,
{
    if !(from + pat.len() > s.len()) && !occurs_at(s, pat, from) {
        lemma_find_from(s, pat, from + 1);
    }
}

/// Splitting keeps every character: the pieces of `s` joined with the pattern
/// give `s` back, there is at least one piece, and no piece holds the pattern.
pub proof fn law_split_rejoins(s: Seq<char>, pat: Seq<char>)
    requires
        pat.len() > 0,
    ensures
        split_by(s, pat).len() >= 1,
        join(split_by(s, pat), pat) == s,
        forall|k: int| 0 <= k < split_by(s, pat).len() ==> free_of(#[trigger] split_by(s, pat)[k], pat),
    decreases s.len(),
{
    lemma_find_from(s, pat, 0);
    match find_from(s, pat, 0) {
        None => {
            assert(split_by(s, pat) == seq![s]);
        },
        Some(i) => {
            let rest = s.skip(i + pat.len());
            law_split_rejoins(rest, pat);
            let parts = split_by(s, pat);
            assert(parts == seq![s.take(i)] + split_by(rest, pat));
            assert(parts.drop_first() =~= split_by(rest, pat));
            assert(s.take(i) + pat + rest =~= s) by {
                assert(s.subrange(i, i + pat.len()) == pat);
            }
            assert forall|k: int| 0 <= k < parts.len() implies free_of(#[trigger] parts[k], pat) by {
                if k == 0 {
                    assert forall|j: int| !#[trigger] occurs_at(s.take(i), pat, j) by {
                        if occurs_at(s.take(i), pat, j) {
                            assert(s.subrange(j, j + pat.len()) =~= s.take(i).subrange(j, j + pat.len()));
                            assert(occurs_at(s, pat, j));
                        }
                    }
                } else {
                    assert(parts[k] == split_by(rest, pat)[k - 1]);
                }
            }
        },
    }
}

/// The characters of a string, in order.
pub fn chars_of(s: &str) -> (r: Vec<char>)
    ensures
        r@ == s@,
{
    let mut r: Vec<char> = Vec::new();
    for c in it: s.chars()
        invariant
            r@ == it.seq().take(it.index() as int),
    {
        r.push(c);
    }
    assert(r@ =~= s@);
    r
}


/// Why text is not an unsigned integer (the kinds of `std::num::ParseIntError`
/// that `u64::from_str` can give).
#[derive(PartialEq, Eq, Structural, Clone, Copy, Debug)]
pub enum IntError {
    Empty,
    InvalidDigit,
    PosOverflow,
}

/// An ASCII decimal digit.
pub open spec fn is_digit(c: char) -> bool {
    '0' <= c && c <= '9'
}

/// Reads decimal digits left to right onto `acc`; a character that is not a
/// digit is reported before an overflow that the digits before it would cause.
pub open spec fn digits_value(s: Seq<char>, acc: int) -> Result<int, IntError>
    decreases s.len(),
{
    if s.len() == 0 {
        Ok(acc)
    } else if !is_digit(s[0]) {
        Err(IntError::InvalidDigit)
    } else if acc * 10 + (s[0] as int - '0' as int) > u64::MAX {
        Err(IntError::PosOverflow)
    } else {
        digits_value(s.drop_first(), acc * 10 + (s[0] as int - '0' as int))
    }
}

/// What `u64::from_str` gives for a text: an optional `+` and at least one
/// digit, within the range of `u64`.
pub open spec fn u64_parse(s: Seq<char>) -> Result<u64, IntError> {
    if s.len() == 0 {
        Err(IntError::Empty)
    } else if s.len() == 1 && (s[0] == '+' || s[0] == '-') {
        Err(IntError::InvalidDigit)
    } else {
        match digits_value(if s[0] == '+' { s.drop_first() } else { s }, 0) {
            Ok(v) => Ok(v as u64),
            Err(e) => Err(e),
        }
    }
}

/// The text of a `ParseIntError` of each kind.
pub open spec fn int_error_text(e: IntError) -> Seq<char> {
    match e {
        IntError::Empty => "cannot parse integer from empty string"@,
        IntError::InvalidDigit => "invalid digit found in string"@,
        IntError::PosOverflow => "number too large to fit in target type"@,
    }
}

impl IntError {
    /// The text of the error.
    pub fn text(&self) -> (r: String)
        ensures
            r@ == int_error_text(*self),
    {
        match self {
            IntError::Empty => String::from_str("cannot parse integer from empty string"),
            IntError::InvalidDigit => String::from_str("invalid digit found in string"),
            IntError::PosOverflow => String::from_str("number too large to fit in target type"),
        }
    }
}

/// Parses `cs[from..to]` as `u64::from_str` does.
pub fn parse_u64(cs: &Vec<char>, from: usize, to: usize) -> (r: Result<u64, IntError>)
    requires
        from <= to <= cs@.len(),
    ensures
        r == u64_parse(cs@.subrange(from as int, to as int)),
{
    let ghost s = cs@.subrange(from as int, to as int);
    if from == to {
        return Err(IntError::Empty);
    }
    if to - from == 1 && (cs[from] == '+' || cs[from] == '-') {
        return Err(IntError::InvalidDigit);
    }
    let mut i = if cs[from] == '+' { from + 1 } else { from };
    let ghost d = if s[0] == '+' { s.drop_first() } else { s };
    assert(d =~= cs@.subrange(i as int, to as int));
    let mut acc: u64 = 0;
    while i < to
        invariant
            from <= i <= to <= cs@.len(),
            s == cs@.subrange(from as int, to as int),
            u64_parse(s) == match digits_value(d, 0) {
                Ok(v) => Ok(v as u64),
                Err(e) => Err(e),
            },
            digits_value(d, 0) == digits_value(cs@.subrange(i as int, to as int), acc as int),
        decreases to - i,
    {
        let c = cs[i];
        let ghost rest = cs@.subrange(i as int, to as int);
        assert(rest[0] == c);
        assert(rest.drop_first() =~= cs@.subrange(i + 1, to as int));
        if !('0' <= c && c <= '9') {
            return Err(IntError::InvalidDigit);
        }
        let dv = (c as u32 - '0' as u32) as u64;
        assert(dv == c as int - '0' as int);
        if acc > (u64::MAX - dv) / 10 {
            assert(acc * 10 + dv > u64::MAX) by (nonlinear_arith)
                requires
                    acc > (u64::MAX - dv) / 10,
                    dv <= 9,
            ;
            return Err(IntError::PosOverflow);
        }
        assert(acc * 10 + dv <= u64::MAX) by (nonlinear_arith)
            requires
                acc <= (u64::MAX - dv) / 10,
                dv <= 9,
        ;
        acc = acc * 10 + dv;
        i = i + 1;
    }
    assert(cs@.subrange(i as int, to as int).len() == 0);
    Ok(acc)
}

/// The first index in `from..to` at which `cs` holds something other than `c`
/// (or `to`): `cs[start..to]` is `cs[from..to]` with its leading `c`s removed.
pub fn skip_leading(cs: &Vec<char>, from: usize, to: usize, c: char) -> (start: usize)
    requires
        from <= to <= cs@.len(),
    ensures
        from <= start <= to,
        cs@.subrange(start as int, to as int) == trim_start(cs@.subrange(from as int, to as int), c),
{
    let mut i = from;
    while i < to && cs[i] == c
        invariant
            from <= i <= to <= cs@.len(),
            trim_start(cs@.subrange(from as int, to as int), c) == trim_start(cs@.subrange(i as int, to as int), c),
        decreases to - i,
    {
        assert(cs@.subrange(i as int, to as int).drop_first() =~= cs@.subrange(i + 1, to as int));
        i = i + 1;
    }
    i
}

/// The end of `cs[from..to]` with its trailing `c`s removed.
pub fn skip_trailing(cs: &Vec<char>, from: usize, to: usize, c: char) -> (end: usize)
    requires
        from <= to <= cs@.len(),
    ensures
        from <= end <= to,
        cs@.subrange(from as int, end as int) == trim_end(cs@.subrange(from as int, to as int), c),
{
    let mut j = to;
    while j > from && cs[j - 1] == c
        invariant
            from <= j <= to <= cs@.len(),
            trim_end(cs@.subrange(from as int, to as int), c) == trim_end(cs@.subrange(from as int, j as int), c),
        decreases j - from,
    {
        assert(cs@.subrange(from as int, j as int).drop_last() =~= cs@.subrange(from as int, j - 1));
        j = j - 1;
    }
    j
}

/// `cs[from..to]` is the text `t`.
pub fn range_is(cs: &Vec<char>, from: usize, to: usize, t: &str) -> (r: bool)
    requires
        from <= to <= cs@.len(),
    ensures
        r == (cs@.subrange(from as int, to as int) == t@),
{
    let tc = chars_of(t);
    if to - from != tc.len() {
        return false;
    }
    let mut k: usize = 0;
    while k < tc.len()
        invariant
            from <= to <= cs@.len(),
            to - from == tc@.len(),
            tc@ == t@,
            k <= tc@.len(),
            forall|q: int| 0 <= q < k ==> cs@[from + q] == tc@[q],
        decreases tc.len() - k,
    {
        if cs[from + k] != tc[k] {
            assert(cs@.subrange(from as int, to as int)[k as int] != t@[k as int]);
            return false;
        }
        k = k + 1;
    }
    assert(cs@.subrange(from as int, to as int) =~= t@);
    true
}


/// The texts that a list of ranges of `cs` covers.
pub open spec fn pieces(cs: Seq<char>, r: Seq<(usize, usize)>) -> Seq<Seq<char>> {
    r.map_values(|p: (usize, usize)| cs.subrange(p.0 as int, p.1 as int))
}

/// `pat` occurs in `cs` at `pos`, ending at or before `to`.
fn occurs_here(cs: &Vec<char>, pos: usize, to: usize, pat: &Vec<char>) -> (r: bool)
    requires
        pos <= to <= cs@.len(),
    ensures
        r == (pos + pat@.len() <= to && cs@.subrange(pos as int, pos + pat@.len()) == pat@),
{
    if pat.len() > to - pos {
        return false;
    }
    let mut k: usize = 0;
    while k < pat.len()
        invariant
            pos + pat@.len() <= to <= cs@.len(),
            k <= pat@.len(),
            forall|q: int| 0 <= q < k ==> cs@[pos + q] == pat@[q],
        decreases pat.len() - k,
    {
        if cs[pos + k] != pat[k] {
            assert(cs@.subrange(pos as int, pos + pat@.len())[k as int] != pat@[k as int]);
            return false;
        }
        k = k + 1;
    }
    assert(cs@.subrange(pos as int, pos + pat@.len()) =~= pat@);
    true
}

/// The ranges of `cs[from..to]` between the occurrences of `pat`, as
/// `str::split` finds them.
pub fn split_ranges(cs: &Vec<char>, from: usize, to: usize, pat: &Vec<char>) -> (r: Vec<(usize, usize)>)
    requires
        from <= to <= cs@.len(),
        pat@.len() > 0,
    ensures
        pieces(cs@, r@) == split_by(cs@.subrange(from as int, to as int), pat@),
        forall|i: int| 0 <= i < r@.len() ==> from <= (#[trigger] r@[i]).0 <= r@[i].1 <= to,
{
    let ghost whole = cs@.subrange(from as int, to as int);
    let mut r: Vec<(usize, usize)> = Vec::new();
    let mut cur = from;
    loop
        invariant
            from <= cur <= to <= cs@.len(),
            pat@.len() > 0,
            whole == cs@.subrange(from as int, to as int),
            pieces(cs@, r@) + split_by(cs@.subrange(cur as int, to as int), pat@) == split_by(whole, pat@),
            forall|i: int| 0 <= i < r@.len() ==> from <= (#[trigger] r@[i]).0 <= r@[i].1 <= to,
        decreases to - cur,
    {
        let ghost t = cs@.subrange(cur as int, to as int);
        let mut k: usize = 0;
        let mut found = false;
        while !found && pat.len() <= to - cur - k
            invariant
                from <= cur <= to <= cs@.len(),
                cur + k <= to,
                pat@.len() > 0,
                t == cs@.subrange(cur as int, to as int),
                found ==> cur + k + pat@.len() <= to && occurs_at(t, pat@, k as int) && find_from(t, pat@, 0) == Some(k as int),
                !found ==> find_from(t, pat@, 0) == find_from(t, pat@, k as int),
            decreases to - cur - k, (if found { 0int } else { 1int }),
        {
            if occurs_here(cs, cur + k, to, pat) {
                assert(t.subrange(k as int, k + pat@.len()) =~= cs@.subrange(cur + k, cur + k + pat@.len()));
                found = true;
            } else {
                assert(t.subrange(k as int, k + pat@.len()) =~= cs@.subrange(cur + k, cur + k + pat@.len()));
                k = k + 1;
            }
        }
        let ghost before = r@;
        if found {
            r.push((cur, cur + k));
            proof {
                assert(t.take(k as int) =~= cs@.subrange(cur as int, cur + k));
                assert(t.skip(k + pat@.len()) =~= cs@.subrange(cur + k + pat@.len(), to as int));
                assert(split_by(t, pat@) == seq![t.take(k as int)] + split_by(t.skip(k + pat@.len()), pat@));
                assert(pieces(cs@, r@) =~= pieces(cs@, before).push(t.take(k as int)));
                assert(pieces(cs@, r@) + split_by(cs@.subrange(cur + k + pat@.len(), to as int), pat@)
                    =~= pieces(cs@, before) + split_by(t, pat@));
            }
            cur = cur + k + pat.len();
        } else {
            r.push((cur, to));
            proof {
                assert(find_from(t, pat@, k as int) == None::<int>);
                assert(split_by(t, pat@) == seq![t]);
                assert(pieces(cs@, r@) =~= pieces(cs@, before).push(t));
                assert(pieces(cs@, r@) =~= split_by(whole, pat@));
            }
            return r;
        }
    }
}

} // verus!
