//! The options of a run, as the arguments of the command line give them.

use vstd::prelude::*;
use vstd::std_specs::iter::IteratorSpec;
use vstd::string::StringExecFns;

verus! {

/// The depth limit of a run whose arguments name none, or none that can be
/// used.
pub const DEFAULT_MAX_DEPTH: usize = 10;

/// The directory that is rendered where the arguments name none.
pub open spec fn default_root() -> Seq<char> {
    "."@
}

/// The flag whose value is the depth limit.
pub open spec fn depth_flag() -> Seq<char> {
    "--depth"@
}

/// The options of a run.
#[derive(Debug)]
pub struct Options {
    /// The directory whose tree is rendered.
    pub root_dir: String,
    /// The depth below which directories are not listed any more.
    pub max_depth: usize,
}

/// Options as contracts see them.
pub struct OptionsView {
    pub root_dir: Seq<char>,
    pub max_depth: usize,
}

impl View for Options {
    type V = OptionsView;

    open spec fn view(&self) -> OptionsView {
        OptionsView { root_dir: self.root_dir@, max_depth: self.max_depth }
    }
}

/// Whether a character is one of the ten decimal digits.
pub open spec fn is_digit(c: char) -> bool {
    '0' <= c <= '9'
}

/// The number that a decimal digit stands for.
pub open spec fn digit_value(c: char) -> nat {
    (c as nat - '0' as nat) as nat
}

/// Whether a text is made of decimal digits only.
pub open spec fn all_digits(text: Seq<char>) -> bool {
    forall|i: int| 0 <= i < text.len() ==> is_digit(#[trigger] text[i])
}

/// The number that a run of decimal digits stands for.
pub open spec fn decimal(digits: Seq<char>) -> nat
    decreases digits.len(),
{
    if digits.len() == 0 {
        0
    } else {
        10 * decimal(digits.drop_last()) + digit_value(digits.last())
    }
}

/// A text without the plus sign that may stand in front of a number.
pub open spec fn unsigned(text: Seq<char>) -> Seq<char> {
    if text.len() > 0 && text[0] == '+' {
        text.drop_first()
    } else {
        text
    }
}

/// The depth limit that a text gives: the text is a number in decimal
/// digits, at least one, with or without a plus sign in front, and the
/// number is one that the machine can hold. Any other text gives none.
pub open spec fn depth_of(text: Seq<char>) -> Option<usize> {
    let digits = unsigned(text);
    if digits.len() > 0 && all_digits(digits) && decimal(digits) <= usize::MAX {
        Some(decimal(digits) as usize)
    } else {
        None
    }
}

/// More digits never make a number smaller.
proof fn lemma_decimal_grows(digits: Seq<char>, upto: int)
    requires
        0 <= upto <= digits.len(),
    ensures
        decimal(digits.take(upto)) <= decimal(digits),
    decreases digits.len() - upto,
{
    if upto < digits.len() {
        lemma_decimal_grows(digits, upto + 1);
        assert(digits.take(upto + 1).drop_last() =~= digits.take(upto));
    } else {
        assert(digits.take(upto) =~= digits);
    }
}

/// Reads a depth limit.
pub fn parse_depth(text: &str) -> (depth: Option<usize>)
    ensures
        depth == depth_of(text@),
{
    let mut chars = text.chars();
    let mut value: usize = 0;
    let mut at_start = true;
    let mut any_digit = false;
    let ghost mut seen: Seq<char> = Seq::empty();
    let ghost mut digits: Seq<char> = Seq::empty();
    loop
        invariant
            chars.decrease() is Some,
            seen + chars.remaining() == text@,
            at_start ==> seen.len() == 0,
            seen.len() == digits.len() + (if !at_start && text@[0] == '+' {
                1int
            } else {
                0int
            }),
            digits.len() <= unsigned(text@).len(),
            digits == unsigned(text@).take(digits.len() as int),
            all_digits(digits),
            any_digit == (digits.len() > 0),
            value == decimal(digits),
        ensures
            digits == unsigned(text@),
            all_digits(digits),
            any_digit == (digits.len() > 0),
            value == decimal(digits),
        decreases chars.decrease()->0,
    {
        match chars.next() {
            None => {
                break ;
            },
            Some(c) => {
                proof {
                    seen = seen.push(c);
                }
                let sign = at_start && c == '+';
                if !sign {
                    if !('0' <= c && c <= '9') {
                        proof {
                            assert(unsigned(text@)[digits.len() as int] == c);
                        }
                        return None;
                    }
                    let digit = (c as u32 - '0' as u32) as usize;
                    proof {
                        let longer = digits.push(c);
                        assert(unsigned(text@).take(longer.len() as int) =~= longer);
                        assert(longer.drop_last() =~= digits);
                        lemma_decimal_grows(unsigned(text@), longer.len() as int);
                        digits = longer;
                    }
                    if value > (usize::MAX - digit) / 10 {
                        return None;
                    }
                    value = value * 10 + digit;
                    any_digit = true;
                }
                at_start = false;
            },
        }
    }
    if any_digit {
        Some(value)
    } else {
        None
    }
}

/// The arguments as contracts see them.
pub open spec fn texts(args: Seq<String>) -> Seq<Seq<char>> {
    Seq::new(args.len(), |i: int| args[i]@)
}

/// The options that the arguments `args` leave of the options read so far.
///
/// The flag takes the argument after it as its value, whatever that is; a
/// value that gives no depth limit sets the default one. A flag at the very
/// end has no value and changes nothing. Every other argument names the
/// root directory, and a later one replaces an earlier one.
pub open spec fn scan(args: Seq<Seq<char>>, so_far: OptionsView) -> OptionsView
    decreases args.len(),
{
    if args.len() == 0 {
        so_far
    } else if args[0] != depth_flag() {
        scan(args.drop_first(), OptionsView { root_dir: args[0], ..so_far })
    } else if args.len() == 1 {
        so_far
    } else {
        let max_depth = match depth_of(args[1]) {
            Some(depth) => depth,
            None => DEFAULT_MAX_DEPTH,
        };
        scan(args.skip(2), OptionsView { max_depth, ..so_far })
    }
}

/// The options that the arguments of a run give. Without arguments the
/// current directory is rendered, with the default depth limit.
pub open spec fn options_of(args: Seq<Seq<char>>) -> OptionsView {
    scan(args, OptionsView { root_dir: default_root(), max_depth: DEFAULT_MAX_DEPTH })
}

/// Reads the options of a run from its arguments, the name of the program
/// not among them. No argument is an error: what cannot be used is passed
/// over.
pub fn parse_args(args: &Vec<String>) -> (options: Options)
    ensures
        options@ == options_of(texts(args@)),
{
    let flag = String::from_str("--depth");
    let mut options = Options { root_dir: String::from_str("."), max_depth: DEFAULT_MAX_DEPTH };
    let mut i: usize = 0;
    proof {
        assert(texts(args@).skip(0) =~= texts(args@));
    }
    while i < args.len()
        invariant
            i <= args.len(),
            flag@ == depth_flag(),
            options_of(texts(args@)) == scan(texts(args@).skip(i as int), options@),
        decreases args.len() - i,
    {
        let ghost rest = texts(args@).skip(i as int);
        if !(args[i] == flag) {
            options.root_dir = args[i].clone();
            proof {
                assert(rest.drop_first() =~= texts(args@).skip(i + 1));
            }
            i += 1;
        } else if i + 1 == args.len() {
            i += 1;
        } else {
            options.max_depth = match parse_depth(args[i + 1].as_str()) {
                Some(depth) => depth,
                None => DEFAULT_MAX_DEPTH,
            };
            proof {
                assert(rest.skip(2) =~= texts(args@).skip(i + 2));
            }
            i += 2;
        }
    }
    options
}

} // verus!
