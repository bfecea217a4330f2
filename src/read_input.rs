//! The command line and the edge-list text format.

use vstd::prelude::*;
use vstd::std_specs::iter::IteratorSpec;
use vstd::string::StringExecFns;
use crate::graph::edge_view;
use crate::random::random_seed;
use crate::tree::names_view;

verus! {

broadcast use vstd::string::group_string_axioms;

/// The characters of `s`.
pub fn chars_of(s: &str) -> (r: Vec<char>)
    ensures
        r@ == s@,
{
    let mut it = s.chars();
    let mut out: Vec<char> = Vec::new();
    loop
        invariant
            it.remaining() == s@.subrange(out@.len() as int, s@.len() as int),
            out@ == s@.subrange(0, out@.len() as int),
            out@.len() <= s@.len(),
        ensures
            out@ == s@,
        decreases s@.len() - out@.len(),
    {
        match it.next() {
            Some(c) => {
                out.push(c);
                assert(out@ =~= s@.subrange(0, out@.len() as int));
            },
            None => {
                assert(out@ =~= s@);
                break;
            },
        }
    }
    out
}

/// What can go wrong with the command line or the input file.
#[derive(Debug)]
pub enum InputError {
    FileNotFound(String),
    InvalidFormat(String),
    InvalidPath(String),
    NoArgs,
    InvalidArgumentSeed,
    InvalidSeed,
}

/// The text that describes an error.
pub open spec fn error_text(e: &InputError) -> Seq<char> {
    match e {
        InputError::FileNotFound(m) => "File not found: "@ + m@,
        InputError::InvalidFormat(m) => "Invalid format: "@ + m@,
        InputError::InvalidPath(m) => "Invalid path: "@ + m@,
        InputError::NoArgs => "Faltan argumentos"@,
        InputError::InvalidArgumentSeed => "No se pueden usar ambos argumentos"@,
        InputError::InvalidSeed => "Seed inválida"@,
    }
}

impl InputError {
    /// The text that describes the error.
    pub fn to_string(&self) -> (r: String)
        ensures
            r@ == error_text(self),
    {
        match self {
            InputError::FileNotFound(m) => join_text("File not found: ", m.as_str()),
            InputError::InvalidFormat(m) => join_text("Invalid format: ", m.as_str()),
            InputError::InvalidPath(m) => join_text("Invalid path: ", m.as_str()),
            InputError::NoArgs => "Faltan argumentos".to_owned(),
            InputError::InvalidArgumentSeed => "No se pueden usar ambos argumentos".to_owned(),
            InputError::InvalidSeed => "Seed inválida".to_owned(),
        }
    }
}

/// Relies on `String::from_iter`: the string of the characters in order.
#[verifier::external_body]
fn string_of(cs: &Vec<char>) -> (r: String)
    ensures
        r@ == cs@,
{
    String::from_iter(cs.iter())
}

/// The two texts one after the other.
fn join_text(a: &str, b: &str) -> (r: String)
    ensures
        r@ == a@ + b@,
{
    let mut r = a.to_owned();
    r.append(b);
    r
}

/// Whether two texts are equal.
pub fn same_text(a: &str, b: &str) -> (r: bool)
    ensures
        r == (a@ == b@),
{
    let x = chars_of(a);
    let y = chars_of(b);
    if x.len() != y.len() {
        return false;
    }
    let mut i: usize = 0;
    while i < x.len()
        invariant
            x@ == a@,
            y@ == b@,
            x@.len() == y@.len(),
            0 <= i <= x@.len(),
            forall|j: int| 0 <= j < i ==> x@[j] == y@[j],
        decreases x@.len() - i,
    {
        if x[i] != y[i] {
            assert(a@[i as int] != b@[i as int]);
            return false;
        }
        i = i + 1;
    }
    assert(x@ =~= y@);
    true
}

/// White space in the sense of `char::is_whitespace` (the Unicode
/// White_Space property).
pub open spec fn is_space(c: char) -> bool {
    let u = c as u32;
    (0x9 <= u && u <= 0xd) || u == 0x20 || u == 0x85 || u == 0xa0 || u == 0x1680 || (0x2000 <= u && u <= 0x200a) || u
        == 0x2028 || u == 0x2029 || u == 0x202f || u == 0x205f || u == 0x3000
}

/// Whether `c` is white space.
fn space(c: char) -> (r: bool)
    ensures
        r == is_space(c),
{
    let u = c as u32;
    (0x9 <= u && u <= 0xd) || u == 0x20 || u == 0x85 || u == 0xa0 || u == 0x1680 || (0x2000 <= u && u <= 0x200a) || u
        == 0x2028 || u == 0x2029 || u == 0x202f || u == 0x205f || u == 0x3000
}

/// `s` without its leading white space.
pub open spec fn trim_start(s: Seq<char>) -> Seq<char>
    decreases s.len(),
{
    if s.len() > 0 && is_space(s[0]) {
        trim_start(s.drop_first())
    } else {
        s
    }
}

/// `s` without its trailing white space.
pub open spec fn trim_end(s: Seq<char>) -> Seq<char>
    decreases s.len(),
{
    if s.len() > 0 && is_space(s.last()) {
        trim_end(s.drop_last())
    } else {
        s
    }
}

/// `s` without leading and trailing white space.
pub open spec fn trim(s: Seq<char>) -> Seq<char> {
    trim_end(trim_start(s))
}

/// The pieces of `s` between occurrences of `sep` (at least one piece).
pub open spec fn split_on(s: Seq<char>, sep: char) -> Seq<Seq<char>>
    decreases s.len(),
{
    if s.len() == 0 {
        seq![Seq::empty()]
    } else {
        let rest = split_on(s.drop_last(), sep);
        if s.last() == sep {
            rest.push(Seq::empty())
        } else {
            rest.update(rest.len() - 1, rest.last().push(s.last()))
        }
    }
}

/// A line without its carriage return.
pub open spec fn strip_cr(l: Seq<char>) -> Seq<char> {
    if l.len() > 0 && l.last() == '\r' {
        l.drop_last()
    } else {
        l
    }
}

/// The lines of `s`: split at line feeds, without a final empty line, each
/// without a trailing carriage return.
pub open spec fn lines_of(s: Seq<char>) -> Seq<Seq<char>> {
    let pieces = split_on(s, '\n');
    let kept = if pieces.last().len() == 0 {
        pieces.drop_last()
    } else {
        pieces
    };
    kept.map_values(|l: Seq<char>| strip_cr(l))
}

pub open spec fn is_digit(c: char) -> bool {
    '0' <= c && c <= '9'
}

/// The value of a string of decimal digits.
pub open spec fn decimal_value(s: Seq<char>) -> nat
    decreases s.len(),
{
    if s.len() == 0 {
        0
    } else {
        decimal_value(s.drop_last()) * 10 + (s.last() as nat - '0' as nat) as nat
    }
}

/// `s` is a non-empty string of decimal digits.
pub open spec fn all_digits(s: Seq<char>) -> bool {
    s.len() > 0 && forall|i: int| 0 <= i < s.len() ==> is_digit(#[trigger] s[i])
}

/// `s` without one leading `+`.
pub open spec fn unsigned_digits(s: Seq<char>) -> Seq<char> {
    if s.len() > 0 && s[0] == '+' {
        s.drop_first()
    } else {
        s
    }
}

/// The unsigned number that `s` writes, when it is at most `bound`.
pub open spec fn parse_unsigned(s: Seq<char>, bound: nat) -> Option<nat> {
    let d = unsigned_digits(s);
    if all_digits(d) && decimal_value(d) <= bound {
        Some(decimal_value(d))
    } else {
        None
    }
}

/// The `i32` that `s` writes: an optional sign and decimal digits.
pub open spec fn parse_i32(s: Seq<char>) -> Option<i32> {
    if s.len() > 0 && s[0] == '-' {
        let d = s.drop_first();
        if all_digits(d) && decimal_value(d) <= 0x8000_0000 {
            Some((0 - decimal_value(d)) as i32)
        } else {
            None
        }
    } else {
        match parse_unsigned(s, 0x7fff_ffff) {
            Some(v) => Some(v as i32),
            None => None,
        }
    }
}

/// One line of the edge-list format: two node names and a weight, separated
/// by commas, each trimmed of white space.
pub open spec fn parse_line(l: Seq<char>) -> Option<(Seq<char>, Seq<char>, u32)> {
    let f = split_on(l, ',');
    if f.len() != 3 {
        None
    } else {
        match parse_unsigned(trim(f[2]), 0xffff_ffff) {
            Some(w) => Some((trim(f[0]), trim(f[1]), w as u32)),
            None => None,
        }
    }
}

/// Every line of `s` is a well-formed edge.
pub open spec fn well_formed(s: Seq<char>) -> bool {
    forall|i: int| 0 <= i < lines_of(s).len() ==> (#[trigger] parse_line(lines_of(s)[i])) is Some
}

/// The views of a list of character vectors.
pub open spec fn pieces_view(v: Seq<Vec<char>>) -> Seq<Seq<char>> {
    v.map_values(|p: Vec<char>| p@)
}

/// `s` without leading and trailing white space.
fn trimmed(s: &Vec<char>) -> (r: Vec<char>)
    ensures
        r@ == trim(s@),
{
    let len = s.len();
    let mut a: usize = 0;
    assert(s@.subrange(0, len as int) =~= s@);
    while a < len && space(s[a])
        invariant
            len == s@.len(),
            0 <= a <= len,
            trim_start(s@) == trim_start(s@.subrange(a as int, len as int)),
        decreases len - a,
    {
        assert(s@.subrange(a as int, len as int).drop_first() =~= s@.subrange(a + 1, len as int));
        a = a + 1;
    }
    assert(trim_start(s@) == s@.subrange(a as int, len as int));
    let mut b: usize = len;
    while b > a && space(s[b - 1])
        invariant
            len == s@.len(),
            0 <= a <= b <= len,
            trim(s@) == trim_end(s@.subrange(a as int, b as int)),
        decreases b,
    {
        assert(s@.subrange(a as int, b as int).drop_last() =~= s@.subrange(a as int, b - 1));
        b = b - 1;
    }
    let mut r: Vec<char> = Vec::new();
    let mut i: usize = a;
    while i < b
        invariant
            len == s@.len(),
            0 <= a <= i <= b <= len,
            r@ == s@.subrange(a as int, i as int),
        decreases b - i,
    {
        r.push(s[i]);
        assert(r@ =~= s@.subrange(a as int, i + 1));
        i = i + 1;
    }
    r
}

/// The pieces of `s` between occurrences of `sep`.
fn split_chars(s: &Vec<char>, sep: char) -> (r: Vec<Vec<char>>)
    ensures
        pieces_view(r@) == split_on(s@, sep),
{
    let mut pieces: Vec<Vec<char>> = Vec::new();
    let mut cur: Vec<char> = Vec::new();
    let mut i: usize = 0;
    while i < s.len()
        invariant
            0 <= i <= s@.len(),
            pieces_view(pieces@).push(cur@) == split_on(s@.subrange(0, i as int), sep),
        decreases s@.len() - i,
    {
        let ghost p0 = pieces@;
        let ghost c0 = cur@;
        proof {
            assert(s@.subrange(0, i + 1).drop_last() =~= s@.subrange(0, i as int));
        }
        if s[i] == sep {
            let done = cur;
            pieces.push(done);
            cur = Vec::new();
            proof {
                assert(pieces_view(pieces@) =~= pieces_view(p0).push(c0));
                assert(pieces_view(pieces@).push(cur@) =~= split_on(s@.subrange(0, i + 1), sep));
            }
        } else {
            cur.push(s[i]);
            proof {
                assert(pieces_view(pieces@).push(cur@) =~= pieces_view(p0).push(c0).update(p0.len() as int, c0.push(s@[i as int])));
            }
        }
        i = i + 1;
    }
    proof {
        assert(s@.subrange(0, s@.len() as int) =~= s@);
    }
    let ghost p0 = pieces@;
    pieces.push(cur);
    proof {
        assert(pieces_view(pieces@) =~= pieces_view(p0).push(cur@));
    }
    pieces
}

/// The lines of `s`.
fn lines(s: &Vec<char>) -> (r: Vec<Vec<char>>)
    ensures
        pieces_view(r@) == lines_of(s@),
{
    let mut pieces = split_chars(s, '\n');
    proof {
        lemma_split_nonempty(s@, '\n');
    }
    let ghost all = pieces_view(pieces@);
    let last = pieces.len() - 1;
    if pieces[last].len() == 0 {
        pieces.pop();
        proof {
            assert(pieces_view(pieces@) =~= all.drop_last());
        }
    }
    let ghost kept = pieces_view(pieces@);
    let mut r: Vec<Vec<char>> = Vec::new();
    let mut i: usize = 0;
    while i < pieces.len()
        invariant
            kept == pieces_view(pieces@),
            0 <= i <= pieces@.len(),
            pieces_view(r@) == kept.subrange(0, i as int).map_values(|l: Seq<char>| strip_cr(l)),
        decreases pieces@.len() - i,
    {
        let mut l: Vec<char> = Vec::new();
        let mut j: usize = 0;
        while j < pieces[i].len()
            invariant
                0 <= i < pieces@.len(),
                0 <= j <= pieces@[i as int]@.len(),
                l@ == pieces@[i as int]@.subrange(0, j as int),
            decreases pieces@[i as int]@.len() - j,
        {
            l.push(pieces[i][j]);
            assert(l@ =~= pieces@[i as int]@.subrange(0, j + 1));
            j = j + 1;
        }
        assert(l@ =~= kept[i as int]);
        if l.len() > 0 && l[l.len() - 1] == '\r' {
            l.pop();
        }
        let ghost r0 = r@;
        r.push(l);
        proof {
            assert(pieces_view(r@) =~= pieces_view(r0).push(strip_cr(kept[i as int])));
            assert(kept.subrange(0, i + 1).map_values(|l: Seq<char>| strip_cr(l)) =~= kept.subrange(0, i as int).map_values(
                |l: Seq<char>| strip_cr(l),
            ).push(strip_cr(kept[i as int])));
        }
        i = i + 1;
    }
    proof {
        assert(kept.subrange(0, kept.len() as int) =~= kept);
    }
    r
}

proof fn lemma_split_nonempty(s: Seq<char>, sep: char)
    ensures
        split_on(s, sep).len() >= 1,
    decreases s.len(),
{
    if s.len() > 0 {
        lemma_split_nonempty(s.drop_last(), sep);
    }
}

/// The value of a string of decimal digits, when it is at most `bound`.
fn digits_value(s: &Vec<char>, start: usize, bound: u64) -> (r: Option<u64>)
    requires
        start <= s@.len(),
    ensures
        r == (if all_digits(s@.subrange(start as int, s@.len() as int)) && decimal_value(
            s@.subrange(start as int, s@.len() as int),
        ) <= bound {
            Some(decimal_value(s@.subrange(start as int, s@.len() as int)) as u64)
        } else {
            None::<u64>
        }),
{
    let ghost d = s@.subrange(start as int, s@.len() as int);
    if start == s.len() {
        return None;
    }
    let mut acc: u64 = 0;
    let mut too_big = false;
    let mut i: usize = start;
    while i < s.len()
        invariant
            start < s@.len(),
            d == s@.subrange(start as int, s@.len() as int),
            start <= i <= s@.len(),
            forall|j: int| start <= j < i ==> is_digit(#[trigger] s@[j]),
            !too_big ==> acc == decimal_value(s@.subrange(start as int, i as int)) && acc <= bound,
            too_big ==> decimal_value(s@.subrange(start as int, i as int)) > bound,
        decreases s@.len() - i,
    {
        let c = s[i];
        if !('0' <= c && c <= '9') {
            proof {
                assert(d[i - start] == c);
            }
            return None;
        }
        proof {
            assert(s@.subrange(start as int, i + 1).drop_last() =~= s@.subrange(start as int, i as int));
        }
        if !too_big {
            let digit = (c as u32 - '0' as u32) as u64;
            if digit > bound || acc > (bound - digit) / 10 {
                too_big = true;
                assert(acc * 10 + digit > bound) by (nonlinear_arith)
                    requires
                        digit > bound || acc > (bound - digit) / 10,
                        acc >= 0,
                ;
            } else {
                assert(acc * 10 + digit <= bound) by (nonlinear_arith)
                    requires
                        acc <= (bound - digit) / 10,
                ;
                acc = acc * 10 + digit;
            }
        }
        i = i + 1;
    }
    proof {
        assert(d =~= s@.subrange(start as int, i as int));
    }
    if too_big {
        None
    } else {
        Some(acc)
    }
}

/// The number that `s` writes, when it fits in `usize`.
fn parse_usize(s: &String) -> (r: Option<usize>)
    ensures
        r matches Some(v) ==> parse_unsigned(s@, usize::MAX as nat) == Some(v as nat),
        r is None ==> parse_unsigned(s@, usize::MAX as nat) is None,
{
    let c = chars_of(s.as_str());
    let start: usize = if c.len() > 0 && c[0] == '+' { 1 } else { 0 };
    proof {
        assert(unsigned_digits(c@) =~= c@.subrange(start as int, c@.len() as int));
    }
    match digits_value(&c, start, usize::MAX as u64) {
        Some(v) => Some(v as usize),
        None => None,
    }
}

/// The `i32` that `s` writes.
fn parse_seed(s: &String) -> (r: Option<i32>)
    ensures
        r == parse_i32(s@),
{
    let c = chars_of(s.as_str());
    if c.len() > 0 && c[0] == '-' {
        proof {
            assert(c@.drop_first() =~= c@.subrange(1, c@.len() as int));
        }
        match digits_value(&c, 1, 0x8000_0000) {
            Some(v) => Some((0 - v as i64) as i32),
            None => None,
        }
    } else {
        let start: usize = if c.len() > 0 && c[0] == '+' { 1 } else { 0 };
        proof {
            assert(unsigned_digits(c@) =~= c@.subrange(start as int, c@.len() as int));
        }
        match digits_value(&c, start, 0x7fff_ffff) {
            Some(v) => Some(v as i32),
            None => None,
        }
    }
}

/// Copies a list of input edges.
fn clone_input(e: &Vec<(String, String, u32)>) -> (r: Vec<(String, String, u32)>)
    ensures
        r@ == e@,
{
    let mut r: Vec<(String, String, u32)> = Vec::new();
    let mut i: usize = 0;
    while i < e.len()
        invariant
            0 <= i <= e@.len(),
            r@ == e@.subrange(0, i as int),
        decreases e@.len() - i,
    {
        let t = (e[i].0.clone(), e[i].1.clone(), e[i].2);
        r.push(t);
        assert(r@ =~= e@.subrange(0, i + 1));
        i = i + 1;
    }
    assert(r@ =~= e@);
    r
}

/// Copies a list of seeds.
fn clone_seeds(v: &Vec<i32>) -> (r: Vec<i32>)
    ensures
        r@ == v@,
{
    let mut r: Vec<i32> = Vec::new();
    let mut i: usize = 0;
    while i < v.len()
        invariant
            0 <= i <= v@.len(),
            r@ == v@.subrange(0, i as int),
        decreases v@.len() - i,
    {
        r.push(v[i]);
        assert(r@ =~= v@.subrange(0, i + 1));
        i = i + 1;
    }
    assert(r@ =~= v@);
    r
}

/// The first position of `f` in `a`.
pub open spec fn position(a: Seq<Seq<char>>, f: Seq<char>) -> Option<int>
    decreases a.len(),
{
    if a.len() == 0 {
        None
    } else {
        match position(a.drop_last(), f) {
            Some(i) => Some(i),
            None => if a.last() == f {
                Some(a.len() - 1)
            } else {
                None
            },
        }
    }
}

/// `s` ends with `.txt`.
pub open spec fn ends_with_txt(s: Seq<char>) -> bool {
    s.len() >= 4 && s.subrange(s.len() - 4, s.len() as int) == ".txt"@
}

/// The seeds `start, start + 1, ..., end`.
pub open spec fn seed_range(v: Seq<i32>, start: i32, end: i32) -> bool {
    &&& v.len() == end - start + 1
    &&& forall|i: int| 0 <= i < v.len() ==> #[trigger] v[i] == start + i
}

/// The command line of a run, and what was read from it.
pub struct ReadInput {
    pub args: Vec<String>,
    pub graph: Vec<(String, String, u32)>,
    pub k_nodes: usize,
    pub seeds: Vec<i32>,
}

impl ReadInput {
    /// The command-line arguments as texts.
    pub open spec fn args_view(&self) -> Seq<Seq<char>> {
        names_view(self.args@)
    }

    /// Keeps the arguments; fails when only the program name is given.
    pub fn new(args: Vec<String>) -> (r: Result<Self, InputError>)
        ensures
            args@.len() == 1 <==> r matches Err(InputError::NoArgs),
            r is Ok <==> args@.len() != 1,
            r matches Ok(ri) ==> ri.args@ == args@ && ri.graph@.len() == 0 && ri.k_nodes == 0 && ri.seeds@.len() == 0,
    {
        if args.len() == 1 {
            return Err(InputError::NoArgs);
        }
        Ok(ReadInput { args, graph: Vec::new(), k_nodes: 0, seeds: Vec::new() })
    }

    /// Whether `flag` is one of the arguments.
    fn get_flag(&self, flag: &str) -> (r: bool)
        ensures
            r == self.args_view().contains(flag@),
    {
        let mut i: usize = 0;
        while i < self.args.len()
            invariant
                0 <= i <= self.args@.len(),
                forall|j: int| 0 <= j < i ==> self.args@[j]@ != flag@,
            decreases self.args@.len() - i,
        {
            if same_text(self.args[i].as_str(), flag) {
                assert(self.args_view()[i as int] == flag@);
                return true;
            }
            i = i + 1;
        }
        proof {
            if self.args_view().contains(flag@) {
                let k = choose|k: int| 0 <= k < self.args_view().len() && self.args_view()[k] == flag@;
                assert(self.args@[k]@ == flag@);
            }
        }
        false
    }

    /// The first position of `flag` among the arguments.
    fn get_position_flag(&self, flag: &str) -> (r: Option<usize>)
        ensures
            r matches Some(i) ==> position(self.args_view(), flag@) == Some(i as int) && i < self.args@.len(),
            r is None ==> position(self.args_view(), flag@) is None,
    {
        let mut i: usize = 0;
        while i < self.args.len()
            invariant
                0 <= i <= self.args@.len(),
                position(self.args_view().subrange(0, i as int), flag@) is None,
            decreases self.args@.len() - i,
        {
            proof {
                assert(self.args_view().subrange(0, i + 1).drop_last() =~= self.args_view().subrange(0, i as int));
            }
            if same_text(self.args[i].as_str(), flag) {
                proof {
                    lemma_position_prefix(self.args_view(), flag@, i + 1);
                }
                return Some(i);
            }
            i = i + 1;
        }
        proof {
            assert(self.args_view().subrange(0, i as int) =~= self.args_view());
        }
        None
    }

    /// The path given after `-p`, which must name a `.txt` file.
    pub fn get_file_path(&self) -> (r: Result<String, InputError>)
        ensures
            match position(self.args_view(), "-p"@) {
                None => r matches Err(InputError::InvalidPath(_)),
                Some(p) => if p + 1 >= self.args@.len() {
                    r matches Err(InputError::FileNotFound(_))
                } else if ends_with_txt(self.args_view()[p + 1]) {
                    r matches Ok(path) && path@ == self.args_view()[p + 1]
                } else {
                    r matches Err(InputError::InvalidFormat(_))
                },
            },
    {
        let position = match self.get_position_flag("-p") {
            Some(pos) => {
                if pos >= self.args.len() - 1 {
                    return Err(InputError::FileNotFound("No se encontro el valor de path".to_owned()));
                }
                pos
            },
            None => {
                return Err(InputError::InvalidPath("No se encontro la bandera".to_owned()));
            },
        };
        let next_arg = &self.args[position + 1];
        let c = chars_of(next_arg.as_str());
        let n = c.len();
        let is_txt = n >= 4 && c[n - 4] == '.' && c[n - 3] == 't' && c[n - 2] == 'x' && c[n - 1] == 't';
        proof {
            assert(self.args_view()[position + 1] == c@);
            reveal_strlit(".txt");
            if n >= 4 {
                if is_txt {
                    assert(c@.subrange(n - 4, n as int) =~= ".txt"@);
                } else {
                    assert(c@.subrange(n - 4, n as int) != ".txt"@) by {
                        if c@.subrange(n - 4, n as int) == ".txt"@ {
                            assert(c@.subrange(n - 4, n as int)[0] == c@[n - 4]);
                            assert(c@.subrange(n - 4, n as int)[1] == c@[n - 3]);
                            assert(c@.subrange(n - 4, n as int)[2] == c@[n - 2]);
                            assert(c@.subrange(n - 4, n as int)[3] == c@[n - 1]);
                        }
                    }
                }
            }
        }
        if is_txt {
            Ok(next_arg.clone())
        } else {
            Err(InputError::InvalidFormat("Debe de ser un archivo .txt".to_owned()))
        }
    }

    /// The edges written in `content`, one `name,name,weight` per line: the
    /// ones read before when there are any, else those of `content`, which
    /// are then kept. Fails when a line is malformed.
    pub fn read_content(&mut self, content: &str) -> (r: Result<Vec<(String, String, u32)>, InputError>)
        ensures
            old(self).graph@.len() > 0 ==> (r matches Ok(v) && v@ == old(self).graph@ && *final(self) == *old(self)),
            old(self).graph@.len() == 0 ==> {
                &&& r is Ok <==> well_formed(content@)
                &&& r matches Ok(v) ==> edge_view(v@) == lines_of(content@).map_values(
                    |l: Seq<char>| parse_line(l)->Some_0,
                ) && final(self).graph@ == v@
                &&& r is Err ==> (r matches Err(InputError::InvalidFormat(_)) && *final(self) == *old(self))
                &&& final(self).args == old(self).args && final(self).k_nodes == old(self).k_nodes
                    && final(self).seeds == old(self).seeds
            },
    {
        if self.graph.len() > 0 {
            return Ok(clone_input(&self.graph));
        }
        let c = chars_of(content);
        let ls = lines(&c);
        let ghost want = lines_of(content@).map_values(|l: Seq<char>| parse_line(l)->Some_0);
        let mut out: Vec<(String, String, u32)> = Vec::new();
        let mut i: usize = 0;
        while i < ls.len()
            invariant
                *self == *old(self),
                old(self).graph@.len() == 0,
                pieces_view(ls@) == lines_of(content@),
                want == lines_of(content@).map_values(|l: Seq<char>| parse_line(l)->Some_0),
                0 <= i <= ls@.len(),
                out@.len() == i,
                forall|j: int| 0 <= j < i ==> (#[trigger] parse_line(lines_of(content@)[j])) is Some,
                forall|j: int| 0 <= j < i ==> #[trigger] edge_view(out@)[j] == want[j],
            decreases ls@.len() - i,
        {
            let ghost line = ls@[i as int]@;
            assert(line == lines_of(content@)[i as int]);
            let f = split_chars(&ls[i], ',');
            if f.len() != 3 {
                return Err(InputError::InvalidFormat("Cada línea debe tener 3 partes separadas por comas".to_owned()));
            }
            let w = trimmed(&f[2]);
            let weight = match digits_value(&w, if w.len() > 0 && w[0] == '+' { 1 } else { 0 }, 0xffff_ffff) {
                Some(v) => v as u32,
                None => {
                    proof {
                        assert(unsigned_digits(w@) =~= w@.subrange(if w@.len() > 0 && w@[0] == '+' { 1 } else { 0 }, w@.len() as int));
                    }
                    return Err(InputError::InvalidFormat("Peso inválido".to_owned()));
                },
            };
            proof {
                assert(unsigned_digits(w@) =~= w@.subrange(if w@.len() > 0 && w@[0] == '+' { 1 } else { 0 }, w@.len() as int));
            }
            let n1 = string_of(&trimmed(&f[0]));
            let n2 = string_of(&trimmed(&f[1]));
            let ghost o0 = out@;
            out.push((n1, n2, weight));
            proof {
                assert(parse_line(line) == Some((n1@, n2@, weight)));
                assert forall|j: int| 0 <= j < i + 1 implies #[trigger] edge_view(out@)[j] == want[j] by {
                    if j < i {
                        assert(out@[j] == o0[j]);
                        assert(edge_view(o0)[j] == want[j]);
                    }
                }
            }
            i = i + 1;
        }
        proof {
            assert(edge_view(out@) =~= want);
        }
        self.graph = clone_input(&out);
        Ok(out)
    }

    /// The number `k` given after `-k`, kept once read (zero means not read).
    pub fn get_k_nodes(&mut self) -> (r: Result<usize, InputError>)
        ensures
            old(self).k_nodes != 0 ==> r == Ok::<usize, InputError>(old(self).k_nodes) && *final(self) == *old(self),
            old(self).k_nodes == 0 ==> match position(old(self).args_view(), "-k"@) {
                None => r matches Err(InputError::InvalidPath(_)),
                Some(p) => if p + 1 >= old(self).args@.len() {
                    r matches Err(InputError::InvalidFormat(_))
                } else {
                    match parse_unsigned(old(self).args_view()[p + 1], usize::MAX as nat) {
                        Some(k) => r == Ok::<usize, InputError>(k as usize) && final(self).k_nodes == k,
                        None => r matches Err(InputError::InvalidFormat(_)),
                    }
                },
            },
            final(self).args == old(self).args,
            final(self).graph == old(self).graph,
            final(self).seeds == old(self).seeds,
    {
        if self.k_nodes != 0 {
            return Ok(self.k_nodes);
        }
        let position = match self.get_position_flag("-k") {
            Some(pos) => {
                if pos >= self.args.len() - 1 {
                    return Err(InputError::InvalidFormat("No se encontro el valor de k".to_owned()));
                }
                pos
            },
            None => {
                return Err(InputError::InvalidPath("No se encontro la bandera".to_owned()));
            },
        };
        proof {
            assert(self.args_view()[position + 1] == self.args@[position + 1]@);
        }
        let k = match parse_usize(&self.args[position + 1]) {
            Some(k) => k,
            None => {
                return Err(InputError::InvalidFormat("K debe ser un número entero positivo".to_owned()));
            },
        };
        self.k_nodes = k;
        Ok(k)
    }

    /// The seeds: `-s a` gives `a`; `-s a b` gives `a` to `b`; `-rs n`
    /// gives `n` random seeds. Kept once read.
    pub fn get_seed(&mut self) -> (r: Result<Vec<i32>, InputError>)
        ensures
            old(self).seeds@.len() > 0 ==> (r matches Ok(v) && v@ == old(self).seeds@ && *final(self) == *old(self)),
            old(self).seeds@.len() == 0 ==> {
                let a = old(self).args_view();
                let len = old(self).args@.len();
                match (position(a, "-s"@), position(a, "-rs"@)) {
                    (Some(_), Some(_)) => r matches Err(InputError::InvalidArgumentSeed),
                    (Some(p), None) => if p + 1 >= len {
                        r matches Err(InputError::InvalidFormat(_))
                    } else {
                        match parse_i32(a[p + 1]) {
                            None => r matches Err(InputError::InvalidSeed),
                            Some(start) => if len <= p + 2 || (a[p + 2].len() > 0 && a[p + 2][0] == '-') {
                                r matches Ok(v) && v@ == seq![start]
                            } else {
                                match parse_i32(a[p + 2]) {
                                    None => r matches Err(InputError::InvalidSeed),
                                    Some(end) => if start > end {
                                        r matches Err(InputError::InvalidSeed)
                                    } else {
                                        r matches Ok(v) && seed_range(v@, start, end)
                                    },
                                }
                            },
                        }
                    },
                    (None, Some(p)) => if p + 1 >= len {
                        r matches Err(InputError::InvalidFormat(_))
                    } else {
                        match parse_unsigned(a[p + 1], usize::MAX as nat) {
                            None => r matches Err(InputError::InvalidSeed),
                            Some(n) => if n == 0 {
                                r matches Err(InputError::InvalidSeed)
                            } else {
                                r matches Ok(v) && v@.len() == n
                            },
                        }
                    },
                    (None, None) => r matches Err(InputError::InvalidSeed),
                }
            },
            r matches Ok(v) ==> final(self).seeds@ == v@,
            r is Err ==> *final(self) == *old(self),
            final(self).args == old(self).args,
            final(self).graph == old(self).graph,
            final(self).k_nodes == old(self).k_nodes,
    {
        if self.seeds.len() > 0 {
            return Ok(clone_seeds(&self.seeds));
        }
        let pos_s = self.get_position_flag("-s");
        let pos_rs = self.get_position_flag("-rs");
        match (pos_s, pos_rs) {
            (Some(_), Some(_)) => Err(InputError::InvalidArgumentSeed),
            (Some(pos), None) => {
                if pos >= self.args.len() - 1 {
                    return Err(InputError::InvalidFormat("No se encontro el valor de seed".to_owned()));
                }
                proof {
                    assert(self.args_view()[pos + 1] == self.args@[pos + 1]@);
                }
                let start = match parse_seed(&self.args[pos + 1]) {
                    Some(v) => v,
                    None => {
                        return Err(InputError::InvalidSeed);
                    },
                };
                let single = if self.args.len() <= pos + 2 {
                    true
                } else {
                    let c = chars_of(self.args[pos + 2].as_str());
                    proof {
                        assert(self.args_view()[pos + 2] == self.args@[pos + 2]@);
                    }
                    c.len() > 0 && c[0] == '-'
                };
                if single {
                    let seeds = vec![start];
                    self.seeds = vec![start];
                    proof {
                        assert(seeds@ =~= seq![start]);
                    }
                    return Ok(seeds);
                }
                proof {
                    assert(self.args_view()[pos + 2] == self.args@[pos + 2]@);
                }
                let end = match parse_seed(&self.args[pos + 2]) {
                    Some(v) => v,
                    None => {
                        return Err(InputError::InvalidSeed);
                    },
                };
                if start > end {
                    return Err(InputError::InvalidSeed);
                }
                let mut seeds: Vec<i32> = Vec::new();
                let mut s: i64 = start as i64;
                while s <= end as i64
                    invariant
                        start <= end,
                        start <= s <= end as i64 + 1,
                        seeds@.len() == s - start,
                        forall|i: int| 0 <= i < seeds@.len() ==> #[trigger] seeds@[i] == start + i,
                    decreases end as i64 + 1 - s,
                {
                    seeds.push(s as i32);
                    s = s + 1;
                }
                self.seeds = seeds.clone();
                Ok(seeds)
            },
            (None, Some(pos)) => {
                if pos >= self.args.len() - 1 {
                    return Err(InputError::InvalidFormat("No se encontro el valor de seed".to_owned()));
                }
                proof {
                    assert(self.args_view()[pos + 1] == self.args@[pos + 1]@);
                }
                let n = match parse_usize(&self.args[pos + 1]) {
                    Some(n) => n,
                    None => {
                        return Err(InputError::InvalidSeed);
                    },
                };
                if n == 0 {
                    return Err(InputError::InvalidSeed);
                }
                let mut seeds: Vec<i32> = Vec::new();
                let mut i: usize = 0;
                while i < n
                    invariant
                        0 <= i <= n,
                        seeds@.len() == i,
                    decreases n - i,
                {
                    seeds.push(random_seed());
                    i = i + 1;
                }
                self.seeds = seeds.clone();
                Ok(seeds)
            },
            (None, None) => Err(InputError::InvalidSeed),
        }
    }

    pub fn get_verbose(&self) -> (r: bool)
        ensures
            r == self.args_view().contains("-v"@),
    {
        self.get_flag("-v")
    }

    pub fn get_svg(&self) -> (r: bool)
        ensures
            r == self.args_view().contains("-svg"@),
    {
        self.get_flag("-svg")
    }

    pub fn get_help(&self) -> (r: bool)
        ensures
            r == (self.args_view().contains("-h"@) || self.args_view().contains("--help"@)),
    {
        self.get_flag("-h") || self.get_flag("--help")
    }
}

/// A first position found in a prefix is the first position in the whole.
proof fn lemma_position_prefix(a: Seq<Seq<char>>, f: Seq<char>, n: int)
    requires
        0 < n <= a.len(),
        position(a.subrange(0, n - 1), f) is None,
        a[n - 1] == f,
    ensures
        position(a, f) == Some(n - 1),
    decreases a.len(),
{
    if a.len() > n {
        assert(a.drop_last().subrange(0, n - 1) =~= a.subrange(0, n - 1));
        lemma_position_prefix(a.drop_last(), f, n);
    } else {
        assert(a.drop_last() =~= a.subrange(0, n - 1));
    }
}

} // verus!
