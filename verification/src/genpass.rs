//! The password command: what it asks of the generator, and what it reports.

use vstd::prelude::*;

use crate::text::{decimal, decimal_reads_back, push_decimal, spells};

verus! {

/// The options of the password command.
#[derive(Debug)]
pub struct GenPassOpts {
    pub length: u8,
    pub uppercase: bool,
    pub lowercase: bool,
    pub number: bool,
    pub symbol: bool,
}

/// Why the strength of a password cannot be told.
#[derive(Debug, Clone, Copy, PartialEq, Eq, Structural)]
pub enum StrengthError {
    /// The password is empty.
    BlankPassword,
    /// The clock stands before 1970.
    DurationOutOfRange,
}

/// What the command prints: the password to standard output, then its strength to standard
/// error, unless that cannot be told.
#[derive(Debug)]
pub struct GenPassReport {
    pub stdout: String,
    pub stderr: Result<String, StrengthError>,
}

/// Whether estimating the strength of a password can end with `outcome`. The estimate weighs
/// years in the password against the current one, so it can change from year to year.
pub uninterp spec fn estimates(password: Seq<char>, outcome: Result<u8, StrengthError>) -> bool;

/// Whether a character can be a match by itself: it stands for the word `i`, as a letter or as a
/// substitute for it.
pub open spec fn is_single(c: char) -> bool {
    c == 'i' || c == 'I' || c == '1' || c == '!' || c == '|'
}

/// How many characters of a text can be a match by themselves.
pub open spec fn singles(s: Seq<char>) -> nat
    decreases s.len(),
{
    if s.len() == 0 {
        0
    } else {
        singles(s.drop_last()) + if is_single(s.last()) {
            1nat
        } else {
            0nat
        }
    }
}

/// Whether a character is on a numeric keypad.
pub open spec fn is_keypad(c: char) -> bool {
    ('0' <= c && c <= '9') || c == '/' || c == '*' || c == '-' || c == '+' || c == '.' || c == '='
}

/// How many characters of a text are on a numeric keypad.
pub open spec fn keypads(s: Seq<char>) -> nat
    decreases s.len(),
{
    if s.len() == 0 {
        0
    } else {
        keypads(s.drop_last()) + if is_keypad(s.last()) {
            1nat
        } else {
            0nat
        }
    }
}

/// Whether the strength of a password is sure to be estimated without overflow. The scoring of
/// `zxcvbn` has two plain products that can outgrow their type.
///
/// * The factorial of the number of matches in a sequence, as `usize`: 20 matches fit 64 bits, 12
///   fit 32. A sequence has at most as many matches as characters. Beyond five matches, where
///   the guesses are at their maximum, it only grows by matches other than brute force, each
///   right behind the last. Those have two characters or more, but for the word `i`, so a
///   sequence of twenty has 3 + 2 * 2 + 15 * 2 characters, less one for each of [`is_single`],
///   and one more character follows where a longer one is tried.
/// * The power of 4 on a keyboard, and of 5 on a keypad, to the turns of a chain of keys, as
///   `u64`: 31 turns and 27 turns fit. A chain has fewer turns than keys.
///
/// The letter U+0130 is left out: its lower case has two characters, which shifts the words that
/// are found.
pub open spec fn estimable(password: Seq<char>) -> bool {
    let n = password.len();
    &&& forall|i: int| 0 <= i < n ==> password[i] != '\u{130}'
    &&& {
        ||| n <= 12
        ||| usize::BITS == 64 && n <= 20
        ||| usize::BITS == 64 && n <= 32 && n + singles(password) <= 37 && keypads(password) <= 28
    }
}

/// The line that tells a strength.
pub open spec fn strength_text(score: u8) -> Seq<char> {
    "Password strength: "@ + decimal(score as nat)
}

/// `zxcvbn::zxcvbn` estimates how hard a password is to guess; `Entropy::score` puts that on a
/// scale from 0 to 4. The empty password is refused, and only that, while the clock stands at
/// or after 1970. Passwords on which its arithmetic might overflow are left out. The function
/// reads the clock before and after its work and subtracts, so it panics where the clock is set
/// back in between; nothing that is known before the call tells that.
#[verifier::external_body]
fn estimate(password: &str, user_inputs: &[&str]) -> (outcome: Result<u8, StrengthError>)
    requires
        user_inputs@.len() == 0,
        estimable(password@),
    ensures
        estimates(password@, outcome),
        outcome matches Ok(score) ==> score <= 4,
        (outcome matches Err(StrengthError::BlankPassword)) <==> password@.len() == 0,
{
    match zxcvbn::zxcvbn(password, user_inputs) {
        Ok(entropy) => Ok(entropy.score()),
        Err(zxcvbn::ZxcvbnError::BlankPassword) => Err(StrengthError::BlankPassword),
        Err(zxcvbn::ZxcvbnError::DurationOutOfRange) => Err(StrengthError::DurationOutOfRange),
    }
}

impl GenPassOpts {
    /// What the generator is called with: the length, then whether to use upper case, lower
    /// case, numbers and symbols.
    pub fn generator_args(&self) -> (args: (u8, bool, bool, bool, bool))
        ensures
            args == (self.length, self.uppercase, self.lowercase, self.number, self.symbol),
    {
        (self.length, self.uppercase, self.lowercase, self.number, self.symbol)
    }
}

/// Whether the strength of a password is sure to be estimated without overflow.
pub fn can_estimate(password: &str) -> (yes: bool)
    ensures
        yes == estimable(password@),
{
    let mut n: u8 = 0;
    let mut single: u8 = 0;
    let mut keypad: u8 = 0;
    for c in it: password.chars()
        invariant
            it.seq() == password@,
            n == it.index() <= 32,
            single == singles(password@.take(n as int)) <= n,
            keypad == keypads(password@.take(n as int)) <= n,
            forall|i: int| 0 <= i < n ==> password@[i] != '\u{130}',
    {
        if c == '\u{130}' || n == 32 {
            return false;
        }
        assert(password@.take(n + 1).drop_last() =~= password@.take(n as int));
        if c == 'i' || c == 'I' || c == '1' || c == '!' || c == '|' {
            single = single + 1;
        }
        if ('0' <= c && c <= '9') || c == '/' || c == '*' || c == '-' || c == '+' || c == '.' || c
            == '=' {
            keypad = keypad + 1;
        }
        n = n + 1;
    }
    assert(password@.take(n as int) =~= password@);
    n <= 12 || (usize::BITS == 64 && (n <= 20 || (n + single <= 37 && keypad <= 28)))
}

/// The line that tells a strength.
pub fn strength_line(score: u8) -> (line: String)
    ensures
        line@ == strength_text(score),
{
    let mut line = "Password strength: ".to_owned();
    push_decimal(&mut line, score as u64);
    line
}

/// The report for a password and the outcome of its estimate.
pub fn report(password: String, outcome: Result<u8, StrengthError>) -> (r: GenPassReport)
    ensures
        r.stdout == password,
        match outcome {
            Ok(score) => r.stderr matches Ok(line) && line@ == strength_text(score),
            Err(e) => r.stderr matches Err(f) && f == e,
        },
{
    let stderr = match outcome {
        Ok(score) => Ok(strength_line(score)),
        Err(e) => Err(e),
    };
    GenPassReport { stdout: password, stderr }
}

/// The report for a generated password. For one that [`can_estimate`] does not vouch for, take
/// the outcome of the estimate from elsewhere and give it to [`report`].
pub fn password_report(password: String) -> (r: GenPassReport)
    requires
        estimable(password@),
    ensures
        r.stdout == password,
        (r.stderr matches Err(StrengthError::BlankPassword)) <==> password@.len() == 0,
        exists|outcome: Result<u8, StrengthError>| #[trigger]
            estimates(password@, outcome) && match outcome {
                Ok(score) => {
                    &&& score <= 4
                    &&& r.stderr matches Ok(line)
                    &&& line@ == strength_text(score)
                },
                Err(e) => r.stderr matches Err(f) && f == e,
            },
{
    let none: [&str; 0] = [];
    let outcome = estimate(password.as_str(), &none);
    report(password, outcome)
}

/// The score can be read from the line that tells it.
pub proof fn strength_can_be_read(score: u8)
    ensures
        exists|digits: Seq<char>| #[trigger]
            spells(digits, score as int) && strength_text(score) == "Password strength: "@ + digits,
{
    decimal_reads_back(score as nat);
}

/// Short passwords without the letter U+0130 can be estimated, and none of more than 32
/// characters is vouched for.
pub proof fn estimates_are_for_short_passwords(password: Seq<char>)
    ensures
        password.len() <= 12 && !password.contains('\u{130}') ==> estimable(password),
        estimable(password) ==> password.len() <= 32 && !password.contains('\u{130}'),
{
    if !password.contains('\u{130}') {
        assert forall|i: int| 0 <= i < password.len() implies password[i] != '\u{130}' by {
            assert(password.contains(password[i]));
        }
    }
}

} // verus!
