//! The settings of a run, read from the command line's arguments.

use vstd::prelude::*;
use vstd::std_specs::iter::IteratorSpec;

verus! {

/// The settings of a run.
#[derive(Debug)]
pub struct Setup {
    /// The directory whose tree is searched.
    pub root_dir: String,
    /// How many levels of directories below it are entered.
    pub deep: u8,
}

/// `c` is one of the digits `0` to `9`.
pub open spec fn is_digit(c: char) -> bool {
    '0' <= c <= '9'
}

/// The number that a sequence of digits writes in base ten.
pub open spec fn decimal(digits: Seq<char>) -> int
    decreases digits.len(),
{
    if digits.len() == 0 {
        0
    } else {
        decimal(digits.drop_last()) * 10 + (digits.last() as int - '0' as int)
    }
}

/// The digits of a number as written: what follows an optional `+`.
pub open spec fn unsigned_part(s: Seq<char>) -> Seq<char> {
    if s.len() > 0 && s[0] == '+' {
        s.drop_first()
    } else {
        s
    }
}

/// The value that `s` writes as a `u8`: an optional `+`, then one or more
/// digits and nothing else, the number no larger than 255.
pub open spec fn parsed_u8(s: Seq<char>) -> Option<u8> {
    let digits = unsigned_part(s);
    if digits.len() > 0 && (forall|i: int| 0 <= i < digits.len() ==> is_digit(#[trigger] digits[i]))
        && decimal(digits) <= u8::MAX {
        Some(decimal(digits) as u8)
    } else {
        None
    }
}

/// The index of the first argument that equals `flag`.
pub open spec fn flag_index(args: Seq<Seq<char>>, flag: Seq<char>) -> Option<int>
    decreases args.len(),
{
    if args.len() == 0 {
        None
    } else {
        match flag_index(args.drop_last(), flag) {
            Some(i) => Some(i),
            None => if args.last() == flag {
                Some(args.len() - 1)
            } else {
                None
            },
        }
    }
}

/// The argument that follows the first `flag`, if there is a `flag` and an
/// argument behind it.
pub open spec fn flag_value(args: Seq<Seq<char>>, flag: Seq<char>) -> Option<Seq<char>> {
    match flag_index(args, flag) {
        Some(i) => if i + 1 < args.len() {
            Some(args[i + 1])
        } else {
            None
        },
        None => None,
    }
}

/// `flag_index` is the place of the first argument equal to `flag`.
pub proof fn lemma_flag_index(args: Seq<Seq<char>>, flag: Seq<char>)
    ensures
        match flag_index(args, flag) {
            Some(i) => {
                &&& 0 <= i < args.len()
                &&& args[i] == flag
                &&& forall|j: int| 0 <= j < i ==> args[j] != flag
            },
            None => forall|j: int| 0 <= j < args.len() ==> args[j] != flag,
        },
    decreases args.len(),
{
    if args.len() > 0 {
        let front = args.drop_last();
        lemma_flag_index(front, flag);
        match flag_index(front, flag) {
            Some(i) => {
                assert(front[i] == args[i]);
                assert forall|j: int| 0 <= j < i implies args[j] != flag by {
                    assert(front[j] == args[j]);
                }
            },
            None => {
                assert forall|j: int| 0 <= j < front.len() implies args[j] != flag by {
                    assert(front[j] == args[j]);
                }
            },
        }
    }
}

/// A number written with more digits is no smaller than the number written
/// by the first of them.
pub proof fn lemma_decimal_grows(digits: Seq<char>, k: int)
    requires
        0 <= k <= digits.len(),
        forall|i: int| 0 <= i < digits.len() ==> is_digit(#[trigger] digits[i]),
    ensures
        0 <= decimal(digits.take(k)) <= decimal(digits),
    decreases digits.len() - k,
{
    if k == digits.len() {
        assert(digits.take(k) =~= digits);
        lemma_decimal_nonnegative(digits);
    } else {
        lemma_decimal_grows(digits, k + 1);
        assert(digits.take(k + 1).drop_last() =~= digits.take(k));
        assert(is_digit(digits[k]));
        lemma_decimal_nonnegative(digits.take(k));
    }
}

proof fn lemma_decimal_nonnegative(digits: Seq<char>)
    requires
        forall|i: int| 0 <= i < digits.len() ==> is_digit(#[trigger] digits[i]),
    ensures
        0 <= decimal(digits),
    decreases digits.len(),
{
    if digits.len() > 0 {
        lemma_decimal_nonnegative(digits.drop_last());
        assert(is_digit(digits[digits.len() - 1]));
    }
}

/// Reads `s` as a `u8` written in base ten.
pub fn parse_u8(s: &str) -> (r: Option<u8>)
    ensures
        r == parsed_u8(s@),
{
    let mut it = s.chars();
    let mut value: u16 = 0;
    let ghost mut seen = Seq::<char>::empty();
    let mut any_digit = false;
    let mut signed = false;
    loop
        invariant
            it.obeys_prophetic_iter_laws(),
            it.decrease() is Some,
            seen + it.remaining() == s@,
            signed ==> seen.len() > 0 && seen[0] == '+',
            !signed ==> !(seen.len() > 0 && seen[0] == '+'),
            signed || !any_digit || unsigned_part(s@) == s@,
            any_digit == (unsigned_part(seen).len() > 0),
            forall|i: int| 0 <= i < unsigned_part(seen).len() ==> is_digit(#[trigger] unsigned_part(seen)[i]),
            value == decimal(unsigned_part(seen)),
            value <= u8::MAX,
        decreases it.decrease()->0,
    {
        match it.next() {
            None => {
                proof {
                    assert(seen =~= s@);
                }
                if any_digit {
                    return Some(value as u8);
                } else {
                    return None;
                }
            },
            Some(c) => {
                let ghost longer = seen.push(c);
                let ghost rest = it.remaining();
                proof {
                    assert(longer + rest =~= s@);
                    assert(s@[seen.len() as int] == c);
                }
                if c == '+' && !any_digit && !signed {
                    proof {
                        assert(seen.len() == 0);
                        assert(unsigned_part(longer) =~= Seq::<char>::empty());
                    }
                    signed = true;
                } else if '0' <= c && c <= '9' {
                    let digit = (c as u8 - '0' as u8) as u16;
                    let next = value * 10 + digit;
                    proof {
                        assert(unsigned_part(longer) =~= unsigned_part(seen).push(c));
                        assert(unsigned_part(longer).drop_last() =~= unsigned_part(seen));
                        assert(next == decimal(unsigned_part(longer)));
                    }
                    if next > 255 {
                        proof {
                            let digits = unsigned_part(s@);
                            assert(unsigned_part(s@) =~= unsigned_part(longer) + rest);
                            if forall|i: int| 0 <= i < digits.len() ==> is_digit(#[trigger] digits[i]) {
                                let k = unsigned_part(longer).len() as int;
                                lemma_decimal_grows(digits, k);
                                assert(digits.take(k) =~= unsigned_part(longer));
                            }
                        }
                        return None;
                    }
                    value = next;
                    any_digit = true;
                } else {
                    proof {
                        let digits = unsigned_part(s@);
                        assert(unsigned_part(s@) =~= unsigned_part(longer) + rest);
                        let at = unsigned_part(longer).len() - 1;
                        assert(digits[at] == c);
                        assert(!is_digit(digits[at]));
                    }
                    return None;
                }
                proof {
                    seen = longer;
                }
            },
        }
    }
}

impl Setup {
    /// The settings that `args` ask for: the first argument behind the
    /// program's name is the root directory, and the value of `-d`, where it
    /// is there and is a number, the depth. Without it the depth is 255.
    pub fn from_args(args: &[String]) -> (setup: Setup)
        requires
            args@.len() >= 2,
        ensures
            setup.root_dir@ == args@[1]@,
            setup.deep == match flag_value(args.deep_view(), "-d"@) {
                Some(value) => match parsed_u8(value) {
                    Some(deep) => deep,
                    None => u8::MAX,
                },
                None => u8::MAX,
            },
    {
        let mut setup = Setup { root_dir: args[1].clone(), deep: u8::MAX };
        if let Some(deep) = Setup::contains_flag_with_val(args, "-d") {
            setup.deep = deep;
        }
        setup
    }

    /// Whether the walk enters a directory found at `depth` levels below the
    /// root: it does while the level below that is still above the limit.
    pub fn descends(&self, depth: u8) -> (enter: bool)
        ensures
            enter == (depth + 1 < self.deep),
    {
        depth < u8::MAX && depth + 1 < self.deep
    }

    /// The value of `flag` as a number: the argument behind the first `flag`,
    /// read as a `u8`. `None` where `flag` is not there, is the last argument,
    /// or is followed by something that is no such number.
    pub fn contains_flag_with_val(args: &[String], flag: &str) -> (value: Option<u8>)
        ensures
            value == match flag_value(args.deep_view(), flag@) {
                Some(text) => parsed_u8(text),
                None => None,
            },
    {
        let count = args.len();
        match Setup::position(args, flag) {
            Some(pos) => {
                if pos + 1 < count {
                    proof {
                        assert(args.deep_view()[pos + 1] == args@[pos + 1]@);
                    }
                    parse_u8(args[pos + 1].as_str())
                } else {
                    None
                }
            },
            None => None,
        }
    }

    /// Whether `flag` is among the arguments: `Some(())` where it is.
    pub fn contains_flag_without_val(args: &[String], flag: &str) -> (found: Option<()>)
        ensures
            found is Some <==> flag_index(args.deep_view(), flag@) is Some,
    {
        match Setup::position(args, flag) {
            Some(_) => Some(()),
            None => None,
        }
    }

    /// The index of the first argument that equals `flag`.
    fn position(args: &[String], flag: &str) -> (pos: Option<usize>)
        ensures
            match pos {
                Some(i) => flag_index(args.deep_view(), flag@) == Some(i as int) && i < args@.len(),
                None => flag_index(args.deep_view(), flag@) is None,
            },
    {
        let wanted = flag.to_owned();
        let ghost all = args.deep_view();
        let mut i: usize = 0;
        while i < args.len()
            invariant
                i <= args@.len(),
                all == args.deep_view(),
                wanted@ == flag@,
                flag_index(all.take(i as int), flag@) is None,
            decreases args@.len() - i,
        {
            proof {
                assert(all.take(i as int + 1).drop_last() =~= all.take(i as int));
                assert(all.take(i as int + 1).last() == args@[i as int]@);
            }
            if args[i] == wanted {
                proof {
                    lemma_flag_index_prefix(all, flag@, i as int + 1);
                }
                return Some(i);
            }
            i = i + 1;
        }
        proof {
            assert(all.take(i as int) =~= all);
        }
        None
    }
}

/// Where `flag` is found among the first `k` arguments, it is found there
/// among all of them.
pub proof fn lemma_flag_index_prefix(args: Seq<Seq<char>>, flag: Seq<char>, k: int)
    requires
        0 <= k <= args.len(),
        flag_index(args.take(k), flag) is Some,
    ensures
        flag_index(args, flag) == flag_index(args.take(k), flag),
    decreases args.len() - k,
{
    if k == args.len() {
        assert(args.take(k) =~= args);
    } else {
        assert(args.take(k + 1).drop_last() =~= args.take(k));
        lemma_flag_index_prefix(args, flag, k + 1);
    }
}

} // verus!
