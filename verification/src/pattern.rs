//! File names and the patterns that exclude them.

use vstd::prelude::*;

verus! {

/// `regex::Regex`, a compiled regular expression. The proofs see nothing
/// inside it.
#[verifier::external_type_specification]
#[verifier::external_body]
pub struct ExRegex(regex::Regex);

/// `regex::Error`, the reason why a pattern did not compile. The proofs see
/// nothing inside it.
#[verifier::external_type_specification]
#[verifier::external_body]
pub struct ExRegexError(regex::Error);

/// The pattern text that a `regex::Regex` was compiled from, which is what
/// `Regex::as_str` returns.
pub uninterp spec fn regex_source(re: regex::Regex) -> Seq<char>;

/// Whether this `regex::Regex` has a match anywhere in `text`: what its
/// `Regex::is_match` returns on `text`. It is a matter of the value, not of
/// its pattern text alone: a `Regex` that a builder made with other options
/// may answer otherwise than one that `Regex::new` made from the same text.
pub uninterp spec fn regex_accepts(re: regex::Regex, text: Seq<char>) -> bool;

/// Whether the regular expression written as `pattern` matches anywhere in
/// `text`: what a `Regex` that `Regex::new` compiled from `pattern` answers
/// on `text`.
pub uninterp spec fn regex_is_match(pattern: Seq<char>, text: Seq<char>) -> bool;

/// How `Regex::new` refuses `pattern`: `None` where it compiles the
/// pattern, else whether the error is `CompiledTooBig`. `Regex::new` draws
/// on nothing but the pattern, and its size limit is a constant.
pub uninterp spec fn regex_refusal(pattern: Seq<char>) -> Option<bool>;

/// Whether a `regex::Error` is the variant `CompiledTooBig`.
pub uninterp spec fn regex_too_big(error: regex::Error) -> bool;

/// Whether `pattern` is a regular expression that compiles.
pub open spec fn regex_compiles(pattern: Seq<char>) -> bool {
    regex_refusal(pattern) is None
}

/// The fault that goes with an error that is, or is not, one of size.
pub open spec fn fault_of(too_big: bool) -> PatternFault {
    if too_big {
        PatternFault::TooBig
    } else {
        PatternFault::Syntax
    }
}

/// The fault for which a pattern that does not compile is refused.
pub open spec fn refusal_fault(pattern: Seq<char>) -> PatternFault {
    fault_of(regex_refusal(pattern) == Some(true))
}

/// `regex::Regex::new`: it succeeds on the patterns that compile, and on no
/// other. Where it succeeds, the `Regex` it returns was compiled from the
/// pattern given, with the default options, so it answers on every text as
/// the pattern does. Where it fails, the error is one of size or not as the
/// pattern's refusal is.
#[verifier::external_body]
fn regex_compile(pattern: &str) -> (r: Result<regex::Regex, regex::Error>)
    ensures
        r is Ok <==> regex_refusal(pattern@) is None,
        r matches Ok(re) ==> regex_source(re) == pattern@ && forall|text: Seq<char>|
            regex_accepts(re, text) == #[trigger] regex_is_match(pattern@, text),
        r matches Err(e) ==> regex_refusal(pattern@) == Some(regex_too_big(e)),
{
    regex::Regex::new(pattern)
}

/// `regex::Regex::is_match`: whether this expression matches anywhere in
/// the text.
#[verifier::external_body]
fn regex_matches(re: &regex::Regex, text: &str) -> (m: bool)
    ensures
        m == regex_accepts(*re, text@),
{
    re.is_match(text)
}

/// Tells the variants of `regex::Error` apart: `CompiledTooBig` is
/// `TooBig`, every other is `Syntax`.
#[verifier::external_body]
fn regex_fault(error: &regex::Error) -> (fault: PatternFault)
    ensures
        fault == fault_of(regex_too_big(*error)),
{
    match error {
        regex::Error::CompiledTooBig(_) => PatternFault::TooBig,
        _ => PatternFault::Syntax,
    }
}

/// Why a pattern was refused.
#[derive(Debug, Clone, Copy, PartialEq, Eq, Structural)]
pub enum PatternFault {
    /// The pattern is not a regular expression.
    Syntax,
    /// The pattern compiles to more than the size limit allows.
    TooBig,
}

/// A pattern that could not be compiled.
#[derive(Debug)]
pub struct PatternError {
    pub pattern: String,
    pub fault: PatternFault,
}

/// Whether a `Regex` is what `Regex::new` makes of `pattern`: it has the
/// pattern as its text and answers on every text as the pattern does.
pub open spec fn compiled_from(re: regex::Regex, pattern: Seq<char>) -> bool {
    &&& regex_source(re) == pattern
    &&& forall|text: Seq<char>| regex_accepts(re, text) == #[trigger] regex_is_match(pattern, text)
}

/// A compiled pattern for file names. Its view is the pattern's text.
pub struct NamePattern {
    source: String,
    compiled: regex::Regex,
}

impl View for NamePattern {
    type V = Seq<char>;

    closed spec fn view(&self) -> Seq<char> {
        self.source@
    }
}

impl NamePattern {
    #[verifier::type_invariant]
    spec fn compiled_from_source(&self) -> bool {
        compiled_from(self.compiled, self.source@)
    }

    /// Compiles a pattern. It succeeds on the patterns that compile, and on
    /// no other; a pattern that does not is handed back with the fault for
    /// which it was refused.
    pub fn compile(pattern: &str) -> (r: Result<NamePattern, PatternError>)
        ensures
            r is Ok <==> regex_compiles(pattern@),
            match r {
                Ok(p) => p@ == pattern@,
                Err(e) => e.pattern@ == pattern@ && e.fault == refusal_fault(pattern@),
            },
    {
        NamePattern::from_compiled(pattern, regex_compile(pattern))
    }

    /// Makes a pattern of the regex engine's answer to compiling `pattern`:
    /// the compiled pattern where there is one, else the text that was
    /// refused together with the fault that the error stands for. The
    /// `Regex` has to be the one that `Regex::new` makes of `pattern`.
    pub fn from_compiled(pattern: &str, compiled: Result<regex::Regex, regex::Error>) -> (r: Result<
        NamePattern,
        PatternError,
    >)
        requires
            compiled matches Ok(re) ==> compiled_from(re, pattern@),
        ensures
            r is Ok <==> compiled is Ok,
            match r {
                Ok(p) => p@ == pattern@,
                Err(e) => e.pattern@ == pattern@ && compiled is Err && e.fault == fault_of(
                    regex_too_big(compiled->Err_0),
                ),
            },
    {
        match compiled {
            Ok(re) => Ok(NamePattern { source: pattern.to_owned(), compiled: re }),
            Err(error) => Err(
                PatternError { pattern: pattern.to_owned(), fault: regex_fault(&error) },
            ),
        }
    }

    /// Whether the pattern matches anywhere in `name`.
    pub fn matches(&self, name: &str) -> (m: bool)
        ensures
            m == regex_is_match(self@, name@),
    {
        proof {
            use_type_invariant(self);
        }
        regex_matches(&self.compiled, name)
    }

    /// The text of the pattern.
    pub fn source(&self) -> (text: &String)
        ensures
            text@ == self@,
    {
        &self.source
    }
}

/// Whether one of the patterns matches the name.
pub open spec fn name_excluded(patterns: Seq<Seq<char>>, name: Seq<char>) -> bool {
    exists|i: int| 0 <= i < patterns.len() && regex_is_match(#[trigger] patterns[i], name)
}

/// Where the file name begins in a path: behind the last `/`, or at 0
/// where the path holds none.
pub open spec fn name_start(path: Seq<char>) -> int
    decreases path.len(),
{
    if path.len() == 0 {
        0
    } else if path.last() == '/' {
        path.len() as int
    } else {
        name_start(path.drop_last())
    }
}

/// The base file name of a path: what follows its last `/`, or the whole
/// path where it holds none.
pub open spec fn file_name_of(path: Seq<char>) -> Seq<char> {
    path.subrange(name_start(path), path.len() as int)
}

/// What `name_start` finds is a position in the path, a `/` stands just
/// before it unless it is 0, and no `/` follows it. So the file name is the
/// longest tail of the path that is free of `/`.
pub proof fn lemma_name_start(path: Seq<char>)
    ensures
        0 <= name_start(path) <= path.len(),
        name_start(path) > 0 ==> path[name_start(path) - 1] == '/',
        forall|i: int| name_start(path) <= i < path.len() ==> path[i] != '/',
        !file_name_of(path).contains('/'),
        path == path.subrange(0, name_start(path)) + file_name_of(path),
    decreases path.len(),
{
    if path.len() > 0 && path.last() != '/' {
        let front = path.drop_last();
        lemma_name_start(front);
        assert forall|i: int| name_start(path) <= i < path.len() implies path[i] != '/' by {
            if i < front.len() {
                assert(front[i] == path[i]);
            }
        }
        if name_start(path) > 0 {
            assert(front[name_start(front) - 1] == path[name_start(path) - 1]);
        }
    }
    assert(path =~= path.subrange(0, name_start(path)) + file_name_of(path));
}

/// The base file name of a path.
pub fn file_name(path: &str) -> (name: &str)
    ensures
        name@ == file_name_of(path@),
{
    let n: usize = path.unicode_len();
    let mut chars = path.chars();
    let mut i: usize = 0;
    let mut start: usize = 0;
    proof {
        vstd::string::axiom_spec_iter(path);
        assert(path@.take(0).len() == 0);
    }
    while i < n
        invariant
            n == path@.len(),
            i <= n,
            start <= i,
            start == name_start(path@.take(i as int)),
            vstd::std_specs::iter::IteratorSpec::remaining(&chars) == path@.skip(i as int),
        decreases n - i,
    {
        let ghost before = chars;
        let next = chars.next();
        proof {
            vstd::string::next_postcondition(&before, &chars, next);
            assert(path@.skip(i as int).len() > 0);
            assert(path@.skip(i as int)[0] == path@[i as int]);
            assert(path@.skip(i as int).drop_first() == path@.skip(i + 1));
            assert(path@.take(i + 1).drop_last() == path@.take(i as int));
            assert(path@.take(i + 1).last() == path@[i as int]);
        }
        i += 1;
        match next {
            Some(c) => {
                if c == '/' {
                    start = i;
                }
            },
            None => {},
        }
    }
    proof {
        assert(path@.take(n as int) == path@);
    }
    path.substring_char(start, n)
}

} // verus!
