//! What becomes of a command line that the parser does not accept.
use vstd::prelude::*;

use super::output::{rendered, CliRunOutput};
use crate::error::{Error, UsageIssue};
use crate::text::{
    chars_of, find_char, has_prefix, optional_str, position, position_is_first, same_text,
    starts_with, string_of, sub_chars, texts,
};

verus! {

/// The position of the first `help`; the number of arguments where there is
/// none.
pub open spec fn help_position(argv: Seq<Seq<char>>) -> nat
    decreases argv.len(),
{
    if argv.len() == 0 || argv[0] == "help"@ {
        0
    } else {
        1 + help_position(argv.drop_first())
    }
}

/// The arguments without the subcommand `help`: the first `help` is taken out
/// where it stands behind something that is no flag.
pub open spec fn without_help(argv: Seq<Seq<char>>) -> Seq<Seq<char>> {
    let i = help_position(argv) as int;
    if 0 < i < argv.len() && !starts_with(argv[i - 1], "-"@) {
        argv.remove(i)
    } else {
        argv
    }
}

/// Takes the subcommand `help` out, so that what it is asked for is found: the
/// parser spells `help sub` as `sub --help`.
pub fn normalize_help_subcommand(argv: &[String]) -> (r: Vec<String>)
    ensures
        texts(r@) == without_help(texts(argv@)),
{
    let ghost all = texts(argv@);
    let mut pos: usize = 0;
    assert(all.skip(0) =~= all);
    while pos < argv.len() && !same_text(argv[pos].as_str(), "help")
        invariant
            pos <= argv@.len(),
            all == texts(argv@),
            help_position(all) == pos + help_position(all.skip(pos as int)),
        decreases argv@.len() - pos,
    {
        assert(all.skip(pos as int).drop_first() =~= all.skip(pos + 1));
        pos += 1;
    }
    assert(help_position(all) == pos);
    let drops: bool = 0 < pos && pos < argv.len() && !has_prefix(argv[pos - 1].as_str(), "-");
    let mut out: Vec<String> = Vec::new();
    let mut i: usize = 0;
    while i < argv.len()
        invariant
            i <= argv@.len(),
            pos <= argv@.len(),
            all == texts(argv@),
            drops ==> pos < argv@.len(),
            !drops || i <= pos ==> texts(out@) == all.take(i as int),
            drops && i > pos ==> texts(out@) == all.remove(pos as int).take(i - 1),
        decreases argv@.len() - i,
    {
        let ghost before = out@;
        if !(drops && i == pos) {
            out.push(argv[i].clone());
            assert(texts(out@) =~= texts(before).push(all[i as int]));
        }
        proof {
            if !drops || i < pos {
                assert(all.take(i + 1) =~= all.take(i as int).push(all[i as int]));
            } else if i == pos {
                assert(all.remove(pos as int).take(i as int) =~= all.take(i as int));
            } else {
                let removed = all.remove(pos as int);
                assert(removed[i - 1] == all[i as int]);
                assert(removed.take(i as int) =~= removed.take(i - 1).push(all[i as int]));
            }
        }
        i += 1;
    }
    proof {
        assert(texts(out@) =~= without_help(all));
    }
    out
}

/// Arguments without a `help` behind something that is no flag stay as they
/// are; otherwise exactly one argument is taken out, and it is a `help`.
pub proof fn only_help_is_dropped(argv: Seq<Seq<char>>)
    ensures
        without_help(argv) == argv || exists|i: int|
            0 < i < argv.len() && argv[i] == "help"@ && without_help(argv) == #[trigger] argv.remove(
                i,
            ),
        !argv.contains("help"@) ==> without_help(argv) == argv,
{
    help_position_facts(argv);
    let i = help_position(argv) as int;
    if 0 < i < argv.len() && !starts_with(argv[i - 1], "-"@) {
        assert(argv.remove(i) == without_help(argv));
    }
}

proof fn help_position_facts(argv: Seq<Seq<char>>)
    ensures
        help_position(argv) <= argv.len(),
        help_position(argv) < argv.len() ==> argv[help_position(argv) as int] == "help"@,
    decreases argv.len(),
{
    if argv.len() > 0 && argv[0] != "help"@ {
        help_position_facts(argv.drop_first());
    }
}

/// The names with spaces between them.
pub open spec fn spaced(names: Seq<Seq<char>>) -> Seq<char>
    decreases names.len(),
{
    if names.len() == 0 {
        Seq::empty()
    } else if names.len() == 1 {
        names[0]
    } else {
        spaced(names.drop_last()) + " "@ + names.last()
    }
}

/// The path of a subcommand: the names of the commands that were chosen, one
/// below the other, with spaces between them.
pub fn extract_subcmd_path(chosen: &[String]) -> (r: String)
    ensures
        r@ == spaced(texts(chosen@)),
{
    let ghost all = texts(chosen@);
    let mut out: String = String::new();
    let mut i: usize = 0;
    assert(all.take(0) =~= Seq::empty());
    while i < chosen.len()
        invariant
            i <= chosen@.len(),
            all == texts(chosen@),
            out@ == spaced(all.take(i as int)),
        decreases chosen@.len() - i,
    {
        proof {
            assert(all.take(i + 1).drop_last() =~= all.take(i as int));
            assert(all.take(i + 1).last() == all[i as int]);
        }
        if i > 0 {
            out.append(" ");
        }
        out.append(chosen[i].as_str());
        assert(out@ =~= spaced(all.take(i + 1)));
        i += 1;
    }
    assert(all.take(all.len() as int) =~= all);
    out
}

/// The words of a path.
pub open spec fn words(path: Seq<char>) -> Seq<Seq<char>>
    decreases path.len(),
{
    let end = position(path, ' ') as int;
    let word = path.take(end);
    let rest = if end < path.len() {
        words(path.skip(end + 1))
    } else {
        Seq::empty()
    };
    if end == 0 {
        rest
    } else {
        seq![word] + rest
    }
}

/// The words of a path; what stands between two spaces is no word if it is
/// empty.
pub fn path_segments(path: &str) -> (r: Vec<String>)
    ensures
        texts(r@) == words(path@),
{
    let v = chars_of(path);
    let mut out: Vec<String> = Vec::new();
    let mut from: usize = 0;
    let mut more: bool = true;
    proof {
        assert(v@.skip(0) =~= v@);
        assert(texts(out@) + words(v@) =~= words(v@));
    }
    while more
        invariant
            from <= v@.len(),
            v@ == path@,
            more ==> texts(out@) + words(v@.skip(from as int)) == words(path@),
            !more ==> texts(out@) == words(path@),
        decreases v@.len() - from + (if more {
            1int
        } else {
            0int
        }),
    {
        let ghost rest = v@.skip(from as int);
        let ghost before = out@;
        let end: usize = find_char(&v, ' ', from);
        proof {
            position_is_first(rest, ' ');
        }
        let ghost after = if end < v@.len() {
            words(v@.skip(end + 1))
        } else {
            Seq::empty()
        };
        assert(end < v@.len() ==> rest.skip(position(rest, ' ') as int + 1) =~= v@.skip(end + 1));
        if end > from {
            let word = sub_chars(&v, from, end);
            out.push(string_of(&word));
            proof {
                assert(word@ =~= rest.take(position(rest, ' ') as int));
                assert(texts(out@) =~= texts(before).push(word@));
                assert(texts(out@) + after =~= texts(before) + (seq![word@] + after));
            }
        }
        if end < v.len() {
            from = end + 1;
        } else {
            assert(texts(out@) + after =~= texts(out@));
            more = false;
        }
    }
    out
}

/// What is reported of a subcommand that was not recognised: the path that
/// was, and the word that was not, where the parser names it.
pub open spec fn attempted_path(path: Seq<char>, invalid: Option<Seq<char>>) -> Seq<char> {
    match invalid {
        Some(word) => if word.len() == 0 {
            path
        } else {
            path + " "@ + word
        },
        None => path,
    }
}

/// What is reported of a subcommand that was not recognised.
pub fn unrecognised_subcmd(path: &str, invalid: Option<&str>) -> (r: String)
    ensures
        r@ == attempted_path(path@, optional_str(invalid)),
{
    match invalid {
        Some(word) => if word.is_empty() {
            path.to_owned()
        } else {
            let mut out: String = path.to_owned();
            out.append(" ");
            out.append(word);
            out
        },
        None => path.to_owned(),
    }
}

/// The node of a service that help was asked for, where the server may have a
/// document for it: the service and its schema are known, and the path starts
/// with the service's name.
pub fn remote_doc_node(service: Option<&str>, has_schema: bool, segs: &[String]) -> (r: Option<
    Vec<String>,
>)
    ensures
        ({
            let path = texts(segs@);
            if service is Some && has_schema && path.len() > 0 && path[0] == service->0@ {
                r matches Some(node) && texts(node@) == path.skip(1)
            } else {
                r is None
            }
        }),
        r matches Some(node) ==> service is Some && seq![service->0@] + texts(node@) == texts(
            segs@,
        ),
{
    let name: &str = match service {
        Some(name) => name,
        None => {
            return None;
        },
    };
    if !has_schema || segs.len() == 0 || !same_text(segs[0].as_str(), name) {
        return None;
    }
    let ghost path = texts(segs@);
    let mut node: Vec<String> = Vec::new();
    let mut i: usize = 1;
    assert(texts(node@) =~= path.subrange(1, 1));
    while i < segs.len()
        invariant
            1 <= i <= segs@.len(),
            path == texts(segs@),
            texts(node@) == path.subrange(1, i as int),
        decreases segs@.len() - i,
    {
        let ghost before = node@;
        node.push(segs[i].clone());
        proof {
            assert(texts(node@) =~= texts(before).push(path[i as int]));
            assert(path.subrange(1, i + 1) =~= path.subrange(1, i as int).push(path[i as int]));
        }
        i += 1;
    }
    assert(path.subrange(1, path.len() as int) =~= path.skip(1));
    assert(seq![path[0]] + path.skip(1) =~= path);
    Some(node)
}

/// What the parser made of a command line that it did not accept.
#[derive(Debug)]
pub struct ParseFailure {
    /// Whether help was asked for, or shown for want of a command.
    pub is_help: bool,
    /// Whether the text belongs to the error output: it does not for what was
    /// asked for.
    pub use_stderr: bool,
    /// The parser's text, with escape codes.
    pub text: String,
    /// What was wrong.
    pub issue: UsageIssue,
}

/// The text for a command line that was not accepted: for help the server's
/// document where there is one, else the parser's own text.
pub open spec fn failure_text(failure: ParseFailure, remote_doc: Option<Seq<char>>) -> Seq<char> {
    if failure.is_help && remote_doc is Some {
        remote_doc->0
    } else {
        failure.text@
    }
}

/// Whether this is what becomes of a command line that was not accepted: a text
/// to write for what was asked for, and a usage error for everything else.
pub open spec fn failure_result(
    failure: ParseFailure,
    remote_doc: Option<Seq<char>>,
    color: bool,
    r: Result<String, Error>,
) -> bool {
    let text = rendered(failure_text(failure, remote_doc), color);
    if failure.use_stderr {
        r matches Err(Error::CliOutput { code, message, source }) && code == 2 && message@ == text
            && source == Some(failure.issue)
    } else {
        r matches Ok(line) && line@ == text.push('\n')
    }
}

impl<W> CliRunOutput<W> {
    /// What becomes of a command line that was not accepted: what was asked
    /// for is printed, and the run has succeeded; everything else is a usage
    /// error.
    pub fn handle_parse_error(&self, failure: ParseFailure, remote_doc: Option<&str>) -> (r: Result<
        String,
        Error,
    >)
        ensures
            failure_result(failure, optional_str(remote_doc), self.color(), r),
    {
        let message: String = match remote_doc {
            Some(doc) => if failure.is_help {
                self.render_styled(doc)
            } else {
                self.render_styled(failure.text.as_str())
            },
            None => self.render_styled(failure.text.as_str()),
        };
        if !failure.use_stderr {
            return Ok(self.print(message.as_str()));
        }
        Err(Error::CliOutput { code: 2, message, source: Some(failure.issue) })
    }
}

proof fn help_position_is(argv: Seq<Seq<char>>, k: int)
    requires
        0 <= k <= argv.len(),
        k < argv.len() ==> argv[k] == "help"@,
        forall|j: int| 0 <= j < k ==> (#[trigger] argv[j]) != "help"@,
    ensures
        help_position(argv) == k,
    decreases argv.len(),
{
    if k > 0 {
        assert(argv[0] != "help"@);
        let rest = argv.drop_first();
        assert forall|j: int| 0 <= j < k - 1 implies (#[trigger] rest[j]) != "help"@ by {
            assert(rest[j] == argv[j + 1]);
        }
        help_position_is(rest, k - 1);
    }
}

/// The first `help` is taken out where it stands behind something that is no
/// flag: what comes before it and after it stays. At the start and behind a
/// flag it stays itself.
pub proof fn first_help_is_taken_out(before: Seq<Seq<char>>, rest: Seq<Seq<char>>)
    requires
        forall|j: int| 0 <= j < before.len() ==> (#[trigger] before[j]) != "help"@,
    ensures
        ({
            let argv = before + seq!["help"@] + rest;
            &&& before.len() > 0 && (before.last().len() == 0 || before.last()[0] != '-')
                ==> without_help(argv) == before + rest
            &&& before.len() == 0 || (before.last().len() > 0 && before.last()[0] == '-')
                ==> without_help(argv) == argv
            &&& without_help(before) == before
        }),
{
    reveal_strlit("-");
    let argv = before + seq!["help"@] + rest;
    let k = before.len() as int;
    assert(argv[k] == "help"@);
    assert forall|j: int| 0 <= j < k implies (#[trigger] argv[j]) != "help"@ by {
        assert(argv[j] == before[j]);
    }
    help_position_is(argv, k);
    help_position_is(before, k);
    assert(argv.remove(k) =~= before + rest);
    if k > 0 {
        let last = before.last();
        assert(argv[k - 1] == last);
        if last.len() > 0 {
            assert(last.take(1)[0] == last[0]);
            if last[0] == '-' {
                assert(last.take(1) =~= "-"@);
            }
        }
    }
}

/// Names with spaces between them are joined list by list.
pub proof fn spaced_lists_join(a: Seq<Seq<char>>, b: Seq<Seq<char>>)
    requires
        a.len() > 0,
        b.len() > 0,
    ensures
        spaced(a + b) == spaced(a) + seq![' '] + spaced(b),
        a.len() == 1 ==> spaced(a) == a[0],
    decreases b.len(),
{
    reveal_strlit(" ");
    assert(" "@ =~= seq![' ']);
    let all = a + b;
    assert(all.last() == b.last());
    if b.len() == 1 {
        assert(all.drop_last() =~= a);
        assert(spaced(b) == b[0]);
    } else {
        spaced_lists_join(a, b.drop_last());
        assert(all.drop_last() =~= a + b.drop_last());
        assert(spaced(all) =~= spaced(a) + seq![' '] + spaced(b));
    }
}

/// Whether the text is a word: it is not empty and holds no space.
pub open spec fn is_word(text: Seq<char>) -> bool {
    text.len() > 0 && forall|i: int| 0 <= i < text.len() ==> (#[trigger] text[i]) != ' '
}

proof fn first_space(word: Seq<char>, rest: Seq<char>)
    requires
        is_word(word),
        rest.len() == 0 || rest[0] == ' ',
    ensures
        position(word + rest, ' ') == word.len(),
{
    let s = word + rest;
    position_is_first(s, ' ');
    let p = position(s, ' ') as int;
    if p < word.len() {
        assert(s[p] == word[p]);
    }
    if p > word.len() {
        assert(s[word.len() as int] == rest[0]);
    }
}

/// A path is taken apart at its spaces: the first word, and the words of what
/// comes behind the space; more spaces make no more words.
pub proof fn words_are_taken_at_spaces(word: Seq<char>, rest: Seq<char>)
    requires
        is_word(word),
    ensures
        words(Seq::empty()) =~= Seq::empty(),
        words(seq![' '] + rest) == words(rest),
        words(word) =~= seq![word],
        words(word + seq![' '] + rest) == seq![word] + words(rest),
{
    let none = Seq::<char>::empty();
    assert(position(none, ' ') == 0);
    let led = seq![' '] + rest;
    assert(led[0] == ' ');
    assert(position(led, ' ') == 0);
    assert(led.skip(1) =~= rest);
    first_space(word, none);
    assert(word + none =~= word);
    assert(word.take(word.len() as int) =~= word);
    assert(seq![word] + Seq::<Seq<char>>::empty() =~= seq![word]);
    let tail = seq![' '] + rest;
    let whole = word + seq![' '] + rest;
    assert(whole =~= word + tail);
    first_space(word, tail);
    assert(whole.take(word.len() as int) =~= word);
    assert(whole.skip(word.len() as int + 1) =~= rest);
}

/// Taking the path of a command apart gives back the names that it was made of.
pub proof fn path_is_taken_apart_again(names: Seq<Seq<char>>)
    requires
        forall|i: int| 0 <= i < names.len() ==> is_word(#[trigger] names[i]),
    ensures
        words(spaced(names)) == names,
    decreases names.len(),
{
    if names.len() == 0 {
        assert(position(Seq::<char>::empty(), ' ') == 0);
        assert(words(spaced(names)) =~= names);
    } else {
        assert(is_word(names[0]));
        let first = seq![names[0]];
        let rest = names.drop_first();
        assert forall|i: int| 0 <= i < rest.len() implies is_word(#[trigger] rest[i]) by {
            assert(rest[i] == names[i + 1]);
        }
        path_is_taken_apart_again(rest);
        assert(first[0] == names[0]);
        words_are_taken_at_spaces(names[0], spaced(rest));
        if rest.len() == 0 {
            assert(names =~= first);
        } else {
            assert(first + rest =~= names);
            spaced_lists_join(first, rest);
        }
        assert(words(spaced(names)) =~= names);
    }
}

/// What is reported of a subcommand that was not recognised goes on from the
/// path with the word, if there is one.
pub proof fn unrecognised_word_is_told(path: Seq<char>, word: Seq<char>)
    ensures
        attempted_path(path, None) == path,
        attempted_path(path, Some(Seq::empty())) == path,
        word.len() > 0 ==> attempted_path(path, Some(word)) == path + seq![' '] + word,
{
    reveal_strlit(" ");
    assert(" "@ =~= seq![' ']);
}

/// What was asked for is printed as a line, and the run has succeeded; what was
/// typed wrongly is a usage error with the exit code two and the same text. The
/// server's document is shown in place of help, and of nothing else.
pub proof fn refused_line_is_answered(
    failure: ParseFailure,
    doc: Seq<char>,
    remote_doc: Option<Seq<char>>,
    color: bool,
    r: Result<String, Error>,
)
    requires
        failure_result(failure, remote_doc, color, r),
    ensures
        r is Err <==> failure.use_stderr,
        r matches Err(error) ==> (error matches Error::CliOutput { code, source, .. } && code == 2
            && source == Some(failure.issue)),
        failure.is_help && remote_doc == Some(doc) ==> match r {
            Ok(line) => line@ == rendered(doc, color) + seq!['\n'],
            Err(error) => error.message_spec() == rendered(doc, color),
        },
        !failure.is_help || remote_doc is None ==> match r {
            Ok(line) => line@ == rendered(failure.text@, color) + seq!['\n'],
            Err(error) => error.message_spec() == rendered(failure.text@, color),
        },
{
    let text = rendered(failure_text(failure, remote_doc), color);
    assert(text.push('\n') =~= text + seq!['\n']);
}

} // verus!
