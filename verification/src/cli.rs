//! Command-line words of the scenario tools: difficulty names, smoke target
//! kinds, and the arguments of a balance sweep.

use vstd::prelude::*;
use crate::scenario::{DifficultyTier, Target};
use crate::text::{owned, push_str, str_eq};
use vstd::string::StrSliceExecFns;

verus! {

/// The ASCII lower-case form of a character; other characters are kept.
pub open spec fn lower_char(c: char) -> char {
    if 'A' <= c && c <= 'Z' { ((c as u32) + 32) as char } else { c }
}

/// The ASCII lower-case form of a string.
pub open spec fn ascii_lower(s: Seq<char>) -> Seq<char> {
    s.map_values(|c: char| lower_char(c))
}

fn lower(s: &str) -> (r: String)
    ensures
        r@ == ascii_lower(s@),
{
    let n = s.unicode_len();
    let mut r = String::new();
    let mut i: usize = 0;
    while i < n
        invariant
            n == s@.len(),
            i <= n,
            r@ == ascii_lower(s@.subrange(0, i as int)),
        decreases n - i,
    {
        let c = s.get_char(i);
        let d = if c >= 'A' && c <= 'Z' {
            let l = ((c as u8) + 32) as char;
            assert(l == lower_char(c)) by {
                assert((c as u32) < 128);
            }
            l
        } else {
            c
        };
        r.push(d);
        assert(ascii_lower(s@.subrange(0, i + 1)) =~= ascii_lower(s@.subrange(0, i as int)).push(lower_char(c)));
        i += 1;
    }
    assert(s@.subrange(0, n as int) =~= s@);
    r
}

/// The difficulty a word names, ignoring ASCII case.
pub open spec fn difficulty_named(w: Seq<char>) -> Option<DifficultyTier> {
    if w == "initiation"@ {
        Some(DifficultyTier::Initiation)
    } else if w == "standard"@ {
        Some(DifficultyTier::Standard)
    } else if w == "advanced"@ {
        Some(DifficultyTier::Advanced)
    } else if w == "pinnacle"@ {
        Some(DifficultyTier::Pinnacle)
    } else {
        None
    }
}

/// The complaint about a word that names no difficulty.
pub open spec fn unknown_difficulty_message(w: Seq<char>) -> Seq<char> {
    "unknown difficulty `"@ + w + "` (expected initiation | standard | advanced | pinnacle)"@
}

/// Parses a difficulty name, ignoring ASCII case. An unknown name is an error
/// that quotes it in lower case and lists the valid names.
pub fn parse_difficulty(s: &str) -> (r: Result<DifficultyTier, String>)
    ensures
        match difficulty_named(ascii_lower(s@)) {
            Some(d) => r == Ok::<DifficultyTier, String>(d),
            None => r matches Err(e) && e@ == unknown_difficulty_message(ascii_lower(s@)),
        },
{
    let w = lower(s);
    if str_eq(w.as_str(), "initiation") {
        Ok(DifficultyTier::Initiation)
    } else if str_eq(w.as_str(), "standard") {
        Ok(DifficultyTier::Standard)
    } else if str_eq(w.as_str(), "advanced") {
        Ok(DifficultyTier::Advanced)
    } else if str_eq(w.as_str(), "pinnacle") {
        Ok(DifficultyTier::Pinnacle)
    } else {
        let mut e = owned("unknown difficulty `");
        push_str(&mut e, w.as_str());
        push_str(&mut e, "` (expected initiation | standard | advanced | pinnacle)");
        Err(e)
    }
}

/// The smoke target a kind word and an id name.
pub open spec fn target_named(kind: Seq<char>, id: Seq<char>, t: Target) -> bool {
    if kind == "item"@ {
        t matches Target::Item(x) && x@ == id
    } else if kind == "node"@ {
        t matches Target::Node(x) && x@ == id
    } else if kind == "recipe"@ {
        t matches Target::Recipe(x) && x@ == id
    } else {
        false
    }
}

/// The smoke target named by `kind` (`item`, `node` or `recipe`, exactly)
/// and `id`; any other kind is an error that quotes it.
pub fn parse_target(kind: &str, id: &str) -> (r: Result<Target, String>)
    ensures
        (kind@ == "item"@ || kind@ == "node"@ || kind@ == "recipe"@) ==> (r matches Ok(t) && target_named(kind@, id@, t)),
        !(kind@ == "item"@ || kind@ == "node"@ || kind@ == "recipe"@) ==> (r matches Err(e)
            && e@ == "unknown target kind `"@ + kind@ + "` (expected item | node | recipe)"@),
{
    if str_eq(kind, "item") {
        Ok(Target::Item(owned(id)))
    } else if str_eq(kind, "node") {
        Ok(Target::Node(owned(id)))
    } else if str_eq(kind, "recipe") {
        Ok(Target::Recipe(owned(id)))
    } else {
        let mut e = owned("unknown target kind `");
        push_str(&mut e, kind);
        push_str(&mut e, "` (expected item | node | recipe)");
        Err(e)
    }
}

/// The value of a string of decimal digits.
pub open spec fn digits_value(s: Seq<char>) -> int
    decreases s.len(),
{
    if s.len() == 0 {
        0
    } else {
        digits_value(s.drop_last()) * 10 + ((s.last() as u32) - ('0' as u32))
    }
}

/// Every character is an ASCII digit.
pub open spec fn all_digits(s: Seq<char>) -> bool {
    forall|i: int| 0 <= i < s.len() ==> '0' <= #[trigger] s[i] && s[i] <= '9'
}

/// The unsigned 64-bit number a string spells: an optional `+`, then one or
/// more ASCII digits whose value fits in 64 bits.
pub open spec fn u64_named(s: Seq<char>) -> Option<u64> {
    let body = if s.len() > 0 && s[0] == '+' { s.drop_first() } else { s };
    if body.len() > 0 && all_digits(body) && digits_value(body) <= u64::MAX {
        Some(digits_value(body) as u64)
    } else {
        None
    }
}

proof fn lemma_digits_value_nonneg(s: Seq<char>)
    requires
        all_digits(s),
    ensures
        digits_value(s) >= 0,
    decreases s.len(),
{
    if s.len() > 0 {
        lemma_digits_value_nonneg(s.drop_last());
    }
}

proof fn lemma_digits_value_prefix_le(s: Seq<char>, i: int)
    requires
        all_digits(s),
        0 <= i <= s.len(),
    ensures
        digits_value(s.subrange(0, i)) <= digits_value(s),
    decreases s.len() - i,
{
    if i < s.len() {
        let t = s.subrange(0, i + 1);
        assert(t.drop_last() =~= s.subrange(0, i));
        assert(all_digits(s.subrange(0, i)));
        lemma_digits_value_nonneg(s.subrange(0, i));
        lemma_digits_value_prefix_le(s, i + 1);
    } else {
        assert(s.subrange(0, i) =~= s);
    }
}

/// Parses an unsigned 64-bit number the way Rust's standard library does.
pub fn parse_u64(s: &str) -> (r: Option<u64>)
    ensures
        r == u64_named(s@),
{
    let n = s.unicode_len();
    let mut start: usize = 0;
    if n > 0 && s.get_char(0) == '+' {
        start = 1;
    }
    let ghost body = if s@.len() > 0 && s@[0] == '+' { s@.drop_first() } else { s@ };
    proof {
        assert(body =~= s@.subrange(start as int, n as int));
    }
    if start == n {
        return None;
    }
    let mut v: u64 = 0;
    let mut i: usize = start;
    while i < n
        invariant
            n == s@.len(),
            start <= i <= n,
            body == s@.subrange(start as int, n as int),
            body == (if s@.len() > 0 && s@[0] == '+' { s@.drop_first() } else { s@ }),
            all_digits(body.subrange(0, i - start)),
            v == digits_value(body.subrange(0, i - start)),
        decreases n - i,
    {
        let c = s.get_char(i);
        let ghost k: int = i - start;
        proof {
            assert(body[k] == c);
            assert(body.subrange(0, k + 1).drop_last() =~= body.subrange(0, k));
            assert(body.subrange(0, k + 1).last() == c);
        }
        if c < '0' || c > '9' {
            proof {
                assert(!all_digits(body)) by {
                    assert(!('0' <= body[k] && body[k] <= '9'));
                }
                assert(u64_named(s@) is None);
            }
            return None;
        }
        let d = (c as u32 - '0' as u32) as u64;
        proof {
            assert(all_digits(body.subrange(0, k + 1)));
            assert(digits_value(body.subrange(0, k + 1)) == v * 10 + d);
        }
        match v.checked_mul(10) {
            Some(m) => match m.checked_add(d) {
                Some(w) => {
                    v = w;
                },
                None => {
                    proof {
                        if all_digits(body) {
                            lemma_digits_value_prefix_le(body, k + 1);
                        }
                        assert(u64_named(s@) is None);
                    }
                    return None;
                },
            },
            None => {
                proof {
                    if all_digits(body) {
                        lemma_digits_value_prefix_le(body, k + 1);
                        lemma_digits_value_nonneg(body.subrange(0, k + 1));
                    }
                }
                return None;
            },
        }
        i += 1;
    }
    proof {
        assert(body.subrange(0, n - start) =~= body);
    }
    Some(v)
}

/// The number of seeds a balance sweep runs when none is given.
pub const DEFAULT_SEEDS: u64 = 8;

/// What is wrong with the arguments of a balance sweep.
#[derive(Clone, Debug, PartialEq, Eq)]
pub enum BalanceArgsError {
    /// `--seeds` is not followed by a positive integer.
    BadSeeds,
    /// A second positional argument.
    Unexpected(String),
    /// No scenario path.
    MissingPath,
}

/// What reading balance-sweep arguments comes to.
pub ghost enum ArgsOutcome {
    Sweep(Seq<char>, u64),
    BadSeeds,
    Unexpected(Seq<char>),
    MissingPath,
}

/// The outcome of reading balance-sweep arguments from position `i` on, with
/// the path and seed count found so far: `--seeds` takes the next argument as
/// a positive count, the first other argument is the path, and a second one
/// is refused.
pub open spec fn balance_scan(args: Seq<Seq<char>>, i: int, path: Option<Seq<char>>, seeds: u64) -> ArgsOutcome
    decreases args.len() - i,
{
    if i >= args.len() {
        match path {
            Some(p) => ArgsOutcome::Sweep(p, seeds),
            None => ArgsOutcome::MissingPath,
        }
    } else if args[i] == "--seeds"@ {
        if i + 1 < args.len() && (u64_named(args[i + 1]) matches Some(n) && n >= 1) {
            balance_scan(args, i + 2, path, u64_named(args[i + 1])->0)
        } else {
            ArgsOutcome::BadSeeds
        }
    } else if path is None {
        balance_scan(args, i + 1, Some(args[i]), seeds)
    } else {
        ArgsOutcome::Unexpected(args[i])
    }
}

/// Whether `r` reports outcome `o`.
pub open spec fn reports(r: Result<(String, u64), BalanceArgsError>, o: ArgsOutcome) -> bool {
    match o {
        ArgsOutcome::Sweep(p, n) => r matches Ok(x) && x.0@ == p && x.1 == n,
        ArgsOutcome::BadSeeds => r matches Err(BalanceArgsError::BadSeeds),
        ArgsOutcome::Unexpected(a) => r matches Err(BalanceArgsError::Unexpected(x)) && x@ == a,
        ArgsOutcome::MissingPath => r matches Err(BalanceArgsError::MissingPath),
    }
}

/// Reads the arguments of a balance sweep: a scenario path and an optional
/// `--seeds N` (N at least 1, eight by default).
pub fn parse_balance_args(args: &Vec<String>) -> (r: Result<(String, u64), BalanceArgsError>)
    ensures
        reports(r, balance_scan(args@.map_values(|a: String| a@), 0, None, DEFAULT_SEEDS)),
{
    let ghost av = args@.map_values(|a: String| a@);
    let mut path: Option<String> = None;
    let mut seeds: u64 = DEFAULT_SEEDS;
    let mut i: usize = 0;
    while i < args.len()
        invariant
            av == args@.map_values(|a: String| a@),
            i <= args@.len(),
            balance_scan(av, i as int, match path { Some(p) => Some(p@), None => None }, seeds)
                == balance_scan(av, 0, None, DEFAULT_SEEDS),
        decreases args@.len() - i,
    {
        let a = &args[i];
        assert(av[i as int] == a@);
        if str_eq(a.as_str(), "--seeds") {
            if i + 1 < args.len() {
                assert(av[i + 1] == args@[i + 1]@);
                match parse_u64(args[i + 1].as_str()) {
                    Some(n) => {
                        if n >= 1 {
                            seeds = n;
                            i = i + 2;
                            continue;
                        }
                    },
                    None => {},
                }
            }
            return Err(BalanceArgsError::BadSeeds);
        }
        if path.is_none() {
            path = Some(owned(a.as_str()));
        } else {
            return Err(BalanceArgsError::Unexpected(owned(a.as_str())));
        }
        i += 1;
    }
    match path {
        Some(p) => Ok((p, seeds)),
        None => Err(BalanceArgsError::MissingPath),
    }
}

} // verus!
