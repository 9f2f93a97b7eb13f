//! Function locations given on the command line, such as `file.c#main`,
//! `file.c#main#2`, `file.c:42` or `file.c:42:10`, and the program's options.
use vstd::prelude::*;

verus! {

/// Where a function stands in a file.
#[derive(Clone, Debug, PartialEq, Eq)]
pub enum CFileLocationPos {
    /// At a line, and if given a column.
    Absolute { line: u32, column: Option<u32> },
    /// The `index`-th top-level entity called `name`.
    Symbol { name: String, index: u32 },
}

/// A file and a position in it.
#[derive(Clone, Debug, PartialEq, Eq)]
pub struct CFileLocation {
    pub file: String,
    pub pos: CFileLocationPos,
}

/// Why a location could not be read.
#[derive(Clone, Copy, Debug, PartialEq, Eq)]
pub enum CFileLocationParseError {
    /// Neither `#` nor `:` separates a file from a position.
    InvalidFormat,
    /// A part that should be a number is not one.
    InvalidNumber,
}

/// The mathematical value of a `CFileLocationPos`.
pub enum PosModel {
    Absolute { line: u32, column: Option<u32> },
    Symbol { name: Seq<char>, index: u32 },
}

/// The mathematical value of a `CFileLocation`.
pub struct LocationModel {
    pub file: Seq<char>,
    pub pos: PosModel,
}

impl View for CFileLocationPos {
    type V = PosModel;

    open spec fn view(&self) -> PosModel {
        match self {
            CFileLocationPos::Absolute { line, column } => PosModel::Absolute {
                line: *line,
                column: *column,
            },
            CFileLocationPos::Symbol { name, index } => PosModel::Symbol {
                name: name@,
                index: *index,
            },
        }
    }
}

impl View for CFileLocation {
    type V = LocationModel;

    open spec fn view(&self) -> LocationModel {
        LocationModel { file: self.file@, pos: self.pos@ }
    }
}

impl CFileLocationParseError {
    /// The message that explains the error.
    pub fn to_string(&self) -> (r: String)
        ensures
            r@ == match self {
                CFileLocationParseError::InvalidFormat => "Invalid file location format. Refer to help for examples."@,
                CFileLocationParseError::InvalidNumber => "Couldn't parse what we expected to be a number"@,
            },
    {
        match self {
            CFileLocationParseError::InvalidFormat => String::from_str(
                "Invalid file location format. Refer to help for examples.",
            ),
            CFileLocationParseError::InvalidNumber => String::from_str(
                "Couldn't parse what we expected to be a number",
            ),
        }
    }
}

// ---------------------------------------------------------------------------
// Splitting on a separator

/// The indices of `c` in `s`, in increasing order.
pub open spec fn positions(s: Seq<char>, c: char) -> Seq<int>
    decreases s.len(),
{
    if s.len() == 0 {
        Seq::empty()
    } else if s.last() == c {
        positions(s.drop_last(), c).push(s.len() - 1)
    } else {
        positions(s.drop_last(), c)
    }
}

/// The `k`-th part of `s` split on `c`, for `k` up to the number of `c`.
pub open spec fn field(s: Seq<char>, c: char, k: int) -> Seq<char> {
    let p = positions(s, c);
    let start = if k == 0 {
        0
    } else {
        p[k - 1] + 1
    };
    let end = if k < p.len() {
        p[k]
    } else {
        s.len() as int
    };
    s.subrange(start, end)
}

proof fn lemma_positions(s: Seq<char>, c: char)
    ensures
        forall|i: int|
            0 <= i < positions(s, c).len() ==> 0 <= #[trigger] positions(s, c)[i] < s.len() && s[positions(s, c)[i]] == c,
        forall|i: int, j: int|
            0 <= i < j < positions(s, c).len() ==> #[trigger] positions(s, c)[i] < #[trigger] positions(
                s,
                c,
            )[j],
    decreases s.len(),
{
    if s.len() > 0 {
        let t = s.drop_last();
        lemma_positions(t, c);
        let q = positions(t, c);
        assert forall|i: int| 0 <= i < q.len() implies s[q[i]] == c by {
            assert(s[q[i]] == t[q[i]]);
        }
        if s.last() == c {
            assert(positions(s, c) == q.push(s.len() - 1));
        } else {
            assert(positions(s, c) == q);
        }
    }
}

/// The indices of `c` in `s`.
fn separators(s: &str, c: char) -> (r: Vec<usize>)
    ensures
        r@.len() == positions(s@, c).len(),
        forall|i: int| 0 <= i < r@.len() ==> r@[i] as int == #[trigger] positions(s@, c)[i],
{
    let n = s.unicode_len();
    let mut r: Vec<usize> = Vec::new();
    let mut i: usize = 0;
    while i < n
        invariant
            n == s@.len(),
            i <= n,
            r@.len() == positions(s@.subrange(0, i as int), c).len(),
            forall|k: int|
                0 <= k < r@.len() ==> r@[k] as int == #[trigger] positions(
                    s@.subrange(0, i as int),
                    c,
                )[k],
        decreases n - i,
    {
        proof {
            let pre = s@.subrange(0, i + 1);
            assert(pre.drop_last() =~= s@.subrange(0, i as int));
            assert(pre.last() == s@[i as int]);
        }
        if s.get_char(i) == c {
            r.push(i);
        }
        i += 1;
    }
    proof {
        assert(s@.subrange(0, n as int) =~= s@);
    }
    r
}

/// The `k`-th part of `s` split on `c`, given the indices of `c`.
fn part<'a>(s: &'a str, seps: &Vec<usize>, c: char, k: usize) -> (r: &'a str)
    requires
        k <= seps@.len(),
        seps@.len() == positions(s@, c).len(),
        forall|i: int| 0 <= i < seps@.len() ==> seps@[i] as int == #[trigger] positions(s@, c)[i],
    ensures
        r@ == field(s@, c, k as int),
{
    proof {
        lemma_positions(s@, c);
    }
    let len = s.unicode_len();
    proof {
        if k > 0 {
            assert(positions(s@, c)[k - 1] < len);
        }
    }
    let start = if k == 0 {
        0
    } else {
        seps[k - 1] + 1
    };
    let end = if k < seps.len() {
        seps[k]
    } else {
        len
    };
    proof {
        if 0 < k < seps@.len() {
            assert(positions(s@, c)[k - 1] < positions(s@, c)[k as int]);
        }
        if k < seps@.len() {
            assert(seps@[k as int] as int == positions(s@, c)[k as int]);
            assert(positions(s@, c)[k as int] < len);
        }
        if k > 0 {
            assert(seps@[k - 1] as int == positions(s@, c)[k - 1]);
        }
    }
    s.substring_char(start, end)
}

// ---------------------------------------------------------------------------
// Numbers

/// `d` is made of decimal digits.
pub open spec fn all_digits(d: Seq<char>) -> bool {
    forall|i: int| 0 <= i < d.len() ==> '0' <= #[trigger] d[i] <= '9'
}

/// The value of the decimal digits `d`.
pub open spec fn digits_value(d: Seq<char>) -> int
    decreases d.len(),
{
    if d.len() == 0 {
        0
    } else {
        digits_value(d.drop_last()) * 10 + (d.last() as int - '0' as int)
    }
}

/// What `str::parse::<u32>` gives for `t`: an optional `+`, then one or more
/// decimal digits whose value fits a `u32`.
pub open spec fn parse_u32_spec(t: Seq<char>) -> Option<u32> {
    let d = if t.len() > 0 && t[0] == '+' {
        t.drop_first()
    } else {
        t
    };
    if d.len() > 0 && all_digits(d) && digits_value(d) <= u32::MAX {
        Some(digits_value(d) as u32)
    } else {
        None
    }
}

/// Relies on `str::parse::<u32>`: it accepts an optional `+` followed by one
/// or more ASCII digits whose value fits a `u32`, and nothing else.
#[verifier::external_body]
fn parse_u32(t: &str) -> (r: Option<u32>)
    ensures
        r == parse_u32_spec(t@),
{
    t.parse::<u32>().ok()
}

/// A number in the given part, or `InvalidNumber`.
fn number(t: &str) -> (r: Result<u32, CFileLocationParseError>)
    ensures
        match parse_u32_spec(t@) {
            Some(v) => r == Ok::<u32, CFileLocationParseError>(v),
            None => r == Err::<u32, CFileLocationParseError>(CFileLocationParseError::InvalidNumber),
        },
{
    match parse_u32(t) {
        Some(v) => Ok(v),
        None => Err(CFileLocationParseError::InvalidNumber),
    }
}

/// What a location text reads as: split on `#` if it holds one (file, name,
/// then an optional index that defaults to 0), else on `:` if it holds one
/// (file, line, then an optional column). Parts past these are ignored.
pub open spec fn location_spec(s: Seq<char>) -> Result<LocationModel, CFileLocationParseError> {
    let hashes = positions(s, '#');
    let colons = positions(s, ':');
    if hashes.len() >= 1 {
        let index = if hashes.len() >= 2 {
            parse_u32_spec(field(s, '#', 2))
        } else {
            Some(0u32)
        };
        match index {
            None => Err(CFileLocationParseError::InvalidNumber),
            Some(index) => Ok(
                LocationModel {
                    file: field(s, '#', 0),
                    pos: PosModel::Symbol { name: field(s, '#', 1), index },
                },
            ),
        }
    } else if colons.len() >= 1 {
        let line = parse_u32_spec(field(s, ':', 1));
        let column = if colons.len() >= 2 {
            match parse_u32_spec(field(s, ':', 2)) {
                None => None,
                Some(c) => Some(Some(c)),
            }
        } else {
            Some(None)
        };
        match (line, column) {
            (Some(line), Some(column)) => Ok(
                LocationModel { file: field(s, ':', 0), pos: PosModel::Absolute { line, column } },
            ),
            _ => Err(CFileLocationParseError::InvalidNumber),
        }
    } else {
        Err(CFileLocationParseError::InvalidFormat)
    }
}

impl CFileLocation {
    /// Reads a location: `file#name`, `file#name#index`, `file:line` or
    /// `file:line:column`, as `location_spec` states.
    pub fn from_str(s: &str) -> (r: Result<CFileLocation, CFileLocationParseError>)
        ensures
            match location_spec(s@) {
                Ok(m) => r is Ok && r->Ok_0@ == m,
                Err(e) => r == Err::<CFileLocation, CFileLocationParseError>(e),
            },
    {
        let hashes = separators(s, '#');
        if hashes.len() >= 1 {
            let index = if hashes.len() >= 2 {
                match number(part(s, &hashes, '#', 2)) {
                    Ok(v) => v,
                    Err(e) => {
                        return Err(e);
                    },
                }
            } else {
                0
            };
            let file = String::from_str(part(s, &hashes, '#', 0));
            let name = String::from_str(part(s, &hashes, '#', 1));
            return Ok(CFileLocation { file, pos: CFileLocationPos::Symbol { name, index } });
        }
        let colons = separators(s, ':');
        if colons.len() >= 1 {
            let line = match number(part(s, &colons, ':', 1)) {
                Ok(v) => v,
                Err(e) => {
                    return Err(e);
                },
            };
            let column = if colons.len() >= 2 {
                match number(part(s, &colons, ':', 2)) {
                    Ok(v) => Some(v),
                    Err(e) => {
                        return Err(e);
                    },
                }
            } else {
                None
            };
            let file = String::from_str(part(s, &colons, ':', 0));
            return Ok(CFileLocation { file, pos: CFileLocationPos::Absolute { line, column } });
        }
        Err(CFileLocationParseError::InvalidFormat)
    }
}

// ---------------------------------------------------------------------------
// Writing a location back

/// The decimal digits of `n`, as `u32`'s `Display` writes them.
pub open spec fn decimal_text(n: nat) -> Seq<char>
    decreases n,
{
    if n < 10 {
        seq![digit_char(n)]
    } else {
        decimal_text(n / 10).push(digit_char(n % 10))
    }
}

/// The character of a decimal digit.
pub open spec fn digit_char(d: nat) -> char {
    if d == 0 { '0' }
    else if d == 1 { '1' }
    else if d == 2 { '2' }
    else if d == 3 { '3' }
    else if d == 4 { '4' }
    else if d == 5 { '5' }
    else if d == 6 { '6' }
    else if d == 7 { '7' }
    else if d == 8 { '8' }
    else { '9' }
}

/// Relies on `u32`'s `Display` through `to_string`: the decimal digits, with
/// no sign and no leading zero.
#[verifier::external_body]
fn u32_text(n: u32) -> (r: String)
    ensures
        r@ == decimal_text(n as nat),
{
    n.to_string()
}

/// The text of a position: `:line`, `:line:column`, `#name`, or
/// `#name#index` when the index is not 0.
pub open spec fn pos_text(p: PosModel) -> Seq<char> {
    match p {
        PosModel::Absolute { line, column } => match column {
            None => seq![':'] + decimal_text(line as nat),
            Some(c) => seq![':'] + decimal_text(line as nat) + seq![':'] + decimal_text(c as nat),
        },
        PosModel::Symbol { name, index } => if index == 0 {
            seq!['#'] + name
        } else {
            seq!['#'] + name + seq!['#'] + decimal_text(index as nat)
        },
    }
}

impl CFileLocationPos {
    /// The text of the position, as `pos_text` states.
    pub fn to_string(&self) -> (r: String)
        ensures
            r@ == pos_text(self@),
    {
        proof {
            reveal_strlit(":");
            reveal_strlit("#");
        }
        match self {
            CFileLocationPos::Absolute { line, column } => {
                let t = String::from_str(":").concat(u32_text(*line).as_str());
                match column {
                    None => t,
                    Some(c) => t.concat(":").concat(u32_text(*c).as_str()),
                }
            },
            CFileLocationPos::Symbol { name, index } => {
                let t = String::from_str("#").concat(name.as_str());
                if *index == 0 {
                    t
                } else {
                    t.concat("#").concat(u32_text(*index).as_str())
                }
            },
        }
    }
}

impl CFileLocation {
    /// The file followed by the text of the position.
    pub fn to_string(&self) -> (r: String)
        ensures
            r@ == self.file@ + pos_text(self.pos@),
    {
        self.file.clone().concat(self.pos.to_string().as_str())
    }
}

// ---------------------------------------------------------------------------
// Finding the entity a location names

/// What the search reads of one entity of a translation unit. The entities
/// come in the order of a depth-first walk, each before its children.
#[derive(Clone, Debug)]
pub struct Candidate {
    /// The entity is of the kind searched for.
    pub kind_matches: bool,
    /// The entity is a direct child of the translation unit.
    pub top_level: bool,
    pub line: u32,
    pub column: u32,
    pub name: Option<String>,
}

/// `c` stands at `line`, and at `column` if one is given, and is of the
/// kind searched for.
pub open spec fn at_position(c: Candidate, line: u32, column: Option<u32>) -> bool {
    &&& c.kind_matches
    &&& c.line == line
    &&& match column {
        Some(col) => c.column == col,
        None => true,
    }
}

/// `c` is a top-level entity called `name`.
pub open spec fn named(c: Candidate, name: Seq<char>) -> bool {
    c.top_level && c.name is Some && c.name->Some_0@ == name
}

/// The number of entities among the first `k` of `cs` called `name`.
pub open spec fn count_named(cs: Seq<Candidate>, name: Seq<char>, k: int) -> nat
    decreases k,
{
    if k <= 0 {
        0
    } else {
        count_named(cs, name, k - 1) + if named(cs[k - 1], name) {
            1nat
        } else {
            0nat
        }
    }
}

/// The entity a position names among `cs`: for a line and column, the first
/// of the searched kind that stands there; for a name, the `index`-th
/// top-level entity of that name, counting from 0.
pub open spec fn found_at(p: PosModel, cs: Seq<Candidate>, i: int) -> bool {
    0 <= i < cs.len() && match p {
        PosModel::Absolute { line, column } => at_position(cs[i], line, column) && forall|j: int|
            0 <= j < i ==> !at_position(#[trigger] cs[j], line, column),
        PosModel::Symbol { name, index } => named(cs[i], name) && count_named(cs, name, i)
            == index,
    }
}

impl CFileLocation {
    /// The index in `candidates` of the entity this location names, if any.
    pub fn find(&self, candidates: &Vec<Candidate>) -> (r: Option<usize>)
        ensures
            match r {
                Some(i) => found_at(self.pos@, candidates@, i as int),
                None => forall|i: int| !found_at(self.pos@, candidates@, i),
            },
    {
        let n = candidates.len();
        match &self.pos {
            CFileLocationPos::Absolute { line, column } => {
                let mut i: usize = 0;
                while i < n
                    invariant
                        n == candidates@.len(),
                        i <= n,
                        self.pos@ == (PosModel::Absolute { line: *line, column: *column }),
                        forall|j: int|
                            0 <= j < i ==> !at_position(#[trigger] candidates@[j], *line, *column),
                    decreases n - i,
                {
                    let c = &candidates[i];
                    let column_ok = match column {
                        Some(col) => c.column == *col,
                        None => true,
                    };
                    if c.kind_matches && c.line == *line && column_ok {
                        return Some(i);
                    }
                    i += 1;
                }
                None
            },
            CFileLocationPos::Symbol { name, index } => {
                let mut seen: u32 = 0;
                let mut i: usize = 0;
                while i < n
                    invariant
                        n == candidates@.len(),
                        i <= n,
                        seen as int == count_named(candidates@, name@, i as int),
                        self.pos@ == (PosModel::Symbol { name: name@, index: *index }),
                        seen <= *index,
                    decreases n - i,
                {
                    let c = &candidates[i];
                    let is_named = match &c.name {
                        Some(m) => c.top_level && m.eq(name),
                        None => false,
                    };
                    assert(is_named == named(candidates@[i as int], name@));
                    if is_named {
                        if seen == *index {
                            return Some(i);
                        }
                        seen += 1;
                    }
                    i += 1;
                }
                proof {
                    assert forall|k: int| !found_at(self.pos@, candidates@, k) by {
                        if 0 <= k < n && named(candidates@[k], name@) && count_named(candidates@, name@, k) == *index {
                            lemma_count_named_grows(candidates@, name@, k + 1, n as int);
                        }
                    }
                }
                None
            },
        }
    }
}

proof fn lemma_count_named_grows(cs: Seq<Candidate>, name: Seq<char>, a: int, b: int)
    requires
        0 <= a <= b,
    ensures
        count_named(cs, name, a) <= count_named(cs, name, b),
    decreases b - a,
{
    if a < b {
        lemma_count_named_grows(cs, name, a, b - 1);
    }
}

/// The program's options.
#[derive(Clone, Debug)]
pub struct Args {
    /// C code entry point or Makefile
    pub entry: Option<String>,
    /// Config file path or directory containing a `polite-c.toml`
    pub config: Option<String>,
    /// Program used to display dot graphs, spawned with `/dev/stdin` argument
    pub dot_viewer: Option<String>,
    /// The function whose control-flow graph is displayed
    pub analyse: Option<CFileLocation>,
}

} // verus!
