//! File names that are safe on every platform.
use vstd::prelude::*;

use crate::text::{
    all_white, ascii_lower, chars_of, find_char, is_white_space, position, position_is_first,
    same_but_ascii_case, same_ignoring_ascii_case, string_of, sub_chars, trim, trim_end, trim_start,
    trimmed, trimming_keeps_the_core,
};

verus! {

/// The most characters of a file name.
pub const MAX_NAME_CHARS: usize = 255;

/// Whether some platform refuses the character in a file name.
pub open spec fn illegal(c: char) -> bool {
    c == '/' || c == '?' || c == '<' || c == '>' || c == '\\' || c == ':' || c == '*' || c == '|'
        || c == '"'
}

/// Whether the character is a control character.
pub open spec fn control(c: char) -> bool {
    (c as u32) <= 0x1f || 0x80 <= (c as u32) <= 0x9f
}

/// Whether some platform refuses the character in a file name.
pub fn is_illegal_char(ch: char) -> (r: bool)
    ensures
        r == illegal(ch),
{
    ch == '/' || ch == '?' || ch == '<' || ch == '>' || ch == '\\' || ch == ':' || ch == '*' || ch
        == '|' || ch == '"'
}

/// Whether the character is a control character.
pub fn is_control_char(ch: char) -> (r: bool)
    ensures
        r == control(ch),
{
    let code: u32 = ch as u32;
    code <= 0x1f || (0x80 <= code && code <= 0x9f)
}

/// Whether Windows reserves the name for a device: `con`, `prn`, `aux`, `nul`,
/// `com0` to `com9` and `lpt0` to `lpt9`, in any case.
pub open spec fn device_name(base: Seq<char>) -> bool {
    ||| same_but_ascii_case(base, "con"@)
    ||| same_but_ascii_case(base, "prn"@)
    ||| same_but_ascii_case(base, "aux"@)
    ||| same_but_ascii_case(base, "nul"@)
    ||| base.len() == 4 && '0' <= base[3] <= '9' && (same_but_ascii_case(base.take(3), "com"@)
        || same_but_ascii_case(base.take(3), "lpt"@))
}

/// Whether Windows reserves the name, whatever follows its first dot.
pub open spec fn windows_reserved(name: Seq<char>) -> bool {
    device_name(name.take(position(name, '.') as int))
}

fn reserved_chars(name: &Vec<char>) -> (r: bool)
    ensures
        r == windows_reserved(name@),
{
    assert(name@.skip(0) =~= name@);
    let dot: usize = find_char(name, '.', 0);
    let base = sub_chars(name, 0, dot);
    assert(base@ =~= name@.take(position(name@, '.') as int));
    if same_ignoring_ascii_case(&base, &chars_of("con")) || same_ignoring_ascii_case(
        &base,
        &chars_of("prn"),
    ) || same_ignoring_ascii_case(&base, &chars_of("aux")) || same_ignoring_ascii_case(
        &base,
        &chars_of("nul"),
    ) {
        return true;
    }
    if base.len() != 4 {
        return false;
    }
    let last: char = base[3];
    let stem = sub_chars(&base, 0, 3);
    assert(stem@ =~= base@.take(3));
    '0' <= last && last <= '9' && (same_ignoring_ascii_case(&stem, &chars_of("com"))
        || same_ignoring_ascii_case(&stem, &chars_of("lpt")))
}

/// Whether Windows reserves the name, whatever follows its first dot.
pub fn is_windows_reserved(name: &str) -> (r: bool)
    ensures
        r == windows_reserved(name@),
{
    reserved_chars(&chars_of(name))
}

/// A character that is safe: itself, or `_` in place of one that is not.
pub open spec fn safe_char(c: char) -> char {
    if illegal(c) || control(c) {
        '_'
    } else {
        c
    }
}

/// Whether the name is nothing but dots.
pub open spec fn all_dots(name: Seq<char>) -> bool {
    forall|i: int| 0 <= i < name.len() ==> name[i] == '.'
}

/// The name without white space at its ends and with safe characters alone;
/// `_` where nothing is left.
pub open spec fn cleaned(input: Seq<char>) -> Seq<char> {
    let safe = trimmed(input).map_values(|c: char| safe_char(c));
    if safe.len() == 0 {
        seq!['_']
    } else {
        safe
    }
}

/// A `_` before a name of dots alone.
pub open spec fn no_dots_alone(name: Seq<char>) -> Seq<char> {
    if all_dots(name) {
        seq!['_'] + name
    } else {
        name
    }
}

/// A `_` after a name that ends in a dot or a space, and one before a name that
/// Windows reserves.
pub open spec fn windows_safe(name: Seq<char>) -> Seq<char> {
    let ended = if name.last() == ' ' || name.last() == '.' {
        name.push('_')
    } else {
        name
    };
    if windows_reserved(ended) {
        seq!['_'] + ended
    } else {
        ended
    }
}

/// The safe name, before it is cut to length.
pub open spec fn safe_name(input: Seq<char>, windows: bool) -> Seq<char> {
    let name = no_dots_alone(cleaned(input));
    if windows {
        windows_safe(name)
    } else {
        name
    }
}

/// The safe name for a file, of no more than 255 characters.
pub open spec fn sanitized(input: Seq<char>, windows: bool) -> Seq<char> {
    let name = safe_name(input, windows);
    if name.len() > MAX_NAME_CHARS {
        name.take(MAX_NAME_CHARS as int)
    } else {
        name
    }
}

fn only_dots(name: &Vec<char>) -> (r: bool)
    ensures
        r == all_dots(name@),
{
    let mut i: usize = 0;
    while i < name.len()
        invariant
            i <= name@.len(),
            forall|j: int| 0 <= j < i ==> name@[j] == '.',
        decreases name@.len() - i,
    {
        if name[i] != '.' {
            return false;
        }
        i += 1;
    }
    true
}

/// Makes a name safe for a file on every platform, and with `windows` also for
/// what Windows alone refuses.
pub fn sanitize_filename(input: &str, windows: bool) -> (r: String)
    ensures
        r@ == sanitized(input@, windows),
{
    let raw = trim(&chars_of(input));
    let ghost safe = trimmed(input@).map_values(|c: char| safe_char(c));
    let mut name: Vec<char> = Vec::new();
    let mut i: usize = 0;
    while i < raw.len()
        invariant
            i <= raw@.len(),
            raw@ == trimmed(input@),
            name@.len() == i,
            forall|j: int| 0 <= j < i ==> name@[j] == safe_char(raw@[j]),
        decreases raw@.len() - i,
    {
        let c: char = raw[i];
        if is_illegal_char(c) || is_control_char(c) {
            name.push('_');
        } else {
            name.push(c);
        }
        i += 1;
    }
    assert(name@ =~= safe);
    if name.len() == 0 {
        name.push('_');
        assert(name@ =~= seq!['_']);
    }
    assert(name@ == cleaned(input@));
    if only_dots(&name) {
        let ghost before = name@;
        name.insert(0, '_');
        assert(name@ =~= seq!['_'] + before);
    }
    assert(name@ == no_dots_alone(cleaned(input@)));
    if windows {
        let ghost start = name@;
        let last: char = name[name.len() - 1];
        if last == ' ' || last == '.' {
            name.push('_');
        }
        if reserved_chars(&name) {
            let ghost before = name@;
            name.insert(0, '_');
            assert(name@ =~= seq!['_'] + before);
        }
        assert(name@ == windows_safe(start));
    }
    if name.len() > MAX_NAME_CHARS {
        let out = sub_chars(&name, 0, MAX_NAME_CHARS);
        assert(out@ =~= name@.take(MAX_NAME_CHARS as int));
        string_of(&out)
    } else {
        string_of(&name)
    }
}

/// Whether every character is safe.
pub open spec fn safe_chars(name: Seq<char>) -> bool {
    forall|i: int| 0 <= i < name.len() ==> !illegal(#[trigger] name[i]) && !control(name[i])
}

/// Whether the name starts and ends with something else than white space.
spec fn solid_ends(name: Seq<char>) -> bool {
    name.len() > 0 && !is_white_space(name[0]) && !is_white_space(name.last())
}

proof fn trim_end_solid(s: Seq<char>)
    ensures
        trim_end(s).len() <= s.len(),
        s.take(trim_end(s).len() as int) == trim_end(s),
        trim_end(s).len() > 0 ==> !is_white_space(trim_end(s).last()),
    decreases s.len(),
{
    if s.len() > 0 && is_white_space(s.last()) {
        trim_end_solid(s.drop_last());
        assert(s.take(trim_end(s).len() as int) =~= s.drop_last().take(trim_end(s).len() as int));
    } else {
        assert(s.take(s.len() as int) =~= s);
    }
}

proof fn trim_start_solid(s: Seq<char>)
    ensures
        trim_start(s).len() > 0 ==> !is_white_space(trim_start(s)[0]),
    decreases s.len(),
{
    if s.len() > 0 && is_white_space(s[0]) {
        trim_start_solid(s.drop_first());
    }
}

proof fn trimmed_solid(s: Seq<char>)
    ensures
        trimmed(s).len() > 0 ==> solid_ends(trimmed(s)),
{
    trim_start_solid(s);
    let t = trim_start(s);
    trim_end_solid(t);
    if trimmed(s).len() > 0 {
        assert(t.take(trimmed(s).len() as int)[0] == t[0]);
    }
}

/// What a safe name is like before it is cut to length.
proof fn safe_name_facts(input: Seq<char>, windows: bool)
    ensures
        safe_chars(safe_name(input, windows)),
        solid_ends(safe_name(input, windows)),
        !all_dots(safe_name(input, windows)),
        windows ==> safe_name(input, windows).last() != ' ' && safe_name(input, windows).last()
            != '.' && !windows_reserved(safe_name(input, windows)),
{
    let raw = trimmed(input);
    trimmed_solid(input);
    let c = cleaned(input);
    assert(safe_chars(c));
    assert(solid_ends(c)) by {
        if raw.len() > 0 {
            assert(c[0] == safe_char(raw[0]));
            assert(c.last() == safe_char(raw.last()));
        }
    }
    let n = no_dots_alone(c);
    assert(safe_chars(n));
    assert(n.len() > 0 && n.last() == c.last());
    assert(!all_dots(n)) by {
        if all_dots(c) {
            assert(n[0] == '_');
        }
    }
    if windows {
        let ended = if n.last() == ' ' || n.last() == '.' {
            n.push('_')
        } else {
            n
        };
        assert(!all_dots(ended)) by {
            let i = choose|i: int| 0 <= i < n.len() && n[i] != '.';
            assert(ended[i] == n[i]);
        }
        assert(ended[0] == n[0]);
        if windows_reserved(ended) {
            let w = seq!['_'] + ended;
            underscore_not_reserved(ended);
            assert(w[0] == '_');
            assert(w.last() == ended.last());
        }
    }
}

proof fn underscore_not_reserved(name: Seq<char>)
    ensures
        !windows_reserved(seq!['_'] + name),
{
    let w = seq!['_'] + name;
    let base = w.take(position(w, '.') as int);
    assert(w.drop_first() =~= name);
    assert(position(w, '.') == 1 + position(name, '.'));
    crate::text::position_is_first(w, '.');
    assert(base[0] == '_');
    reveal_strlit("con");
    reveal_strlit("prn");
    reveal_strlit("aux");
    reveal_strlit("nul");
    reveal_strlit("com");
    reveal_strlit("lpt");
    assert(ascii_lower(base[0]) == '_');
    assert("con"@[0] == 'c' && "prn"@[0] == 'p' && "aux"@[0] == 'a' && "nul"@[0] == 'n' && "com"@[0]
        == 'c' && "lpt"@[0] == 'l');
    if base.len() == 4 {
        assert(base.take(3)[0] == base[0]);
    }
}

/// A file name that was made safe holds no character that some platform
/// refuses, is not empty and is no longer than 255 characters.
pub proof fn sanitized_is_safe(input: Seq<char>, windows: bool)
    ensures
        safe_chars(sanitized(input, windows)),
        0 < sanitized(input, windows).len() <= MAX_NAME_CHARS,
{
    safe_name_facts(input, windows);
}

/// A file name that was made safe, and did not have to be cut, is no name of
/// dots alone; made safe for Windows, it ends in no dot or space and is not
/// reserved.
pub proof fn sanitized_is_a_name(input: Seq<char>, windows: bool)
    requires
        safe_name(input, windows).len() <= MAX_NAME_CHARS,
    ensures
        !all_dots(sanitized(input, windows)),
        windows ==> sanitized(input, windows).last() != ' ' && sanitized(input, windows).last()
            != '.' && !windows_reserved(sanitized(input, windows)),
{
    safe_name_facts(input, windows);
}

/// Making a name safe a second time changes nothing, if it did not have to be
/// cut.
pub proof fn sanitized_twice(input: Seq<char>, windows: bool)
    requires
        safe_name(input, windows).len() <= MAX_NAME_CHARS,
    ensures
        sanitized(sanitized(input, windows), windows) == sanitized(input, windows),
{
    safe_name_facts(input, windows);
    let n = sanitized(input, windows);
    assert(trimmed(n) == n);
    assert(n.map_values(|c: char| safe_char(c)) =~= n);
    assert(cleaned(n) == n);
}

/// The characters that some platform refuses are these nine.
pub proof fn illegal_characters_are_nine(c: char)
    ensures
        illegal(c) <==> seq!['/', '?', '<', '>', '\\', ':', '*', '|', '"'].contains(c),
{
    let all = seq!['/', '?', '<', '>', '\\', ':', '*', '|', '"'];
    if illegal(c) {
        let i: int = if c == '/' {
            0
        } else if c == '?' {
            1
        } else if c == '<' {
            2
        } else if c == '>' {
            3
        } else if c == '\\' {
            4
        } else if c == ':' {
            5
        } else if c == '*' {
            6
        } else if c == '|' {
            7
        } else {
            8
        };
        assert(all[i] == c);
    }
}

/// The control characters are the first thirty-two, and as many from U+0080
/// on.
pub proof fn control_characters_are_two_ranges(c: char)
    ensures
        control(c) <==> (c as int) < 32 || 128 <= (c as int) < 160,
{
}

/// A file name is made safe character by character: white space at its ends
/// goes, a character that is refused or controls something becomes `_`, and
/// every other one stays; nothing comes after the 255th. A name of dots alone
/// gets a `_` before it, and so does a name of which nothing is left.
pub proof fn name_is_kept_by_character(
    before: Seq<char>,
    core: Seq<char>,
    after: Seq<char>,
    i: int,
)
    requires
        all_white(before),
        all_white(after),
        core.len() > 0 ==> !is_white_space(core[0]) && !is_white_space(core.last()),
    ensures
        ({
            let name = sanitized(before + core + after, false);
            &&& core.len() == 0 ==> name =~= seq!['_']
            &&& core.len() > 0 && all_dots(core) && core.len() < 255 ==> name =~= seq!['_'] + core
            &&& core.len() >= 255 && all_dots(core) ==> name =~= seq!['_'] + core.take(254)
            &&& core.len() > 0 && !all_dots(core) ==> {
                &&& name.len() == (if core.len() > 255 {
                    255
                } else {
                    core.len()
                })
                &&& 0 <= i < name.len() ==> {
                    &&& (illegal(core[i]) || control(core[i])) ==> name[i] == '_'
                    &&& !(illegal(core[i]) || control(core[i])) ==> name[i] == core[i]
                }
            }
        }),
{
    let input = before + core + after;
    trimming_keeps_the_core(before, core, after);
    let safe = core.map_values(|c: char| safe_char(c));
    let name = sanitized(input, false);
    if core.len() > 0 {
        assert(cleaned(input) == safe);
        if all_dots(core) {
            assert(safe =~= core);
        } else {
            let k = choose|k: int| 0 <= k < core.len() && core[k] != '.';
            assert(safe[k] != '.');
            assert(!all_dots(safe));
        }
    } else {
        let under = seq!['_'];
        assert(under[0] == '_');
        assert(!all_dots(under));
    }
}

/// What Windows asks for besides: a `_` after a name that ends in a dot, one
/// before a name that it reserves, and nothing else is changed; what comes
/// after the 255th character goes.
pub proof fn windows_changes_the_ends_alone(input: Seq<char>)
    requires
        sanitized(input, false).len() < 255,
    ensures
        ({
            let name = sanitized(input, false);
            let own = sanitized(input, true);
            let ended = if name.last() == '.' {
                name.push('_')
            } else {
                name
            };
            let whole = if windows_reserved(ended) {
                seq!['_'] + ended
            } else {
                ended
            };
            &&& whole.len() <= 255 ==> own == whole
            &&& whole.len() > 255 ==> own == whole.take(255)
        }),
{
    safe_name_facts(input, false);
    let name = safe_name(input, false);
    assert(sanitized(input, false) == name);
    assert(name.last() != ' ') by {
        assert(is_white_space(' '));
    }
}

/// Windows reserves a name for what stands before its first dot.
pub proof fn reserved_by_its_base(base: Seq<char>, rest: Seq<char>)
    requires
        forall|i: int| 0 <= i < base.len() ==> (#[trigger] base[i]) != '.',
        rest.len() == 0 || rest[0] == '.',
    ensures
        windows_reserved(base + rest) <==> {
            ||| same_but_ascii_case(base, seq!['c', 'o', 'n'])
            ||| same_but_ascii_case(base, seq!['p', 'r', 'n'])
            ||| same_but_ascii_case(base, seq!['a', 'u', 'x'])
            ||| same_but_ascii_case(base, seq!['n', 'u', 'l'])
            ||| base.len() == 4 && '0' <= base[3] <= '9' && (same_but_ascii_case(
                base,
                seq!['c', 'o', 'm', base[3]],
            ) || same_but_ascii_case(base, seq!['l', 'p', 't', base[3]]))
        },
{
    let name = base + rest;
    position_is_first(name, '.');
    let p = position(name, '.') as int;
    assert(p == base.len()) by {
        if p < base.len() {
            assert(name[p] == base[p]);
        }
        if p > base.len() {
            assert(name[base.len() as int] == rest[0]);
        }
    }
    assert(name.take(p) =~= base);
    reveal_strlit("con");
    reveal_strlit("prn");
    reveal_strlit("aux");
    reveal_strlit("nul");
    reveal_strlit("com");
    reveal_strlit("lpt");
    assert("con"@ =~= seq!['c', 'o', 'n']);
    assert("prn"@ =~= seq!['p', 'r', 'n']);
    assert("aux"@ =~= seq!['a', 'u', 'x']);
    assert("nul"@ =~= seq!['n', 'u', 'l']);
    assert("com"@ =~= seq!['c', 'o', 'm']);
    assert("lpt"@ =~= seq!['l', 'p', 't']);
    if base.len() == 4 {
        if '0' <= base[3] <= '9' {
            let com = seq!['c', 'o', 'm', base[3]];
            let lpt = seq!['l', 'p', 't', base[3]];
            same_stem(base, com);
            same_stem(base, lpt);
            assert(com.take(3) =~= "com"@);
            assert(lpt.take(3) =~= "lpt"@);
        }
    }
}

proof fn same_stem(a: Seq<char>, b: Seq<char>)
    requires
        a.len() == 4,
        b.len() == 4,
        a[3] == b[3],
    ensures
        same_but_ascii_case(a, b) <==> same_but_ascii_case(a.take(3), b.take(3)),
{
    if same_but_ascii_case(a, b) {
        assert forall|i: int| 0 <= i < 3 implies ascii_lower(#[trigger] a.take(3)[i])
            == ascii_lower(b.take(3)[i]) by {
            assert(ascii_lower(a[i]) == ascii_lower(b[i]));
        }
    }
    if same_but_ascii_case(a.take(3), b.take(3)) {
        assert forall|i: int| 0 <= i < 4 implies ascii_lower(#[trigger] a[i]) == ascii_lower(
            b[i],
        ) by {
            if i < 3 {
                assert(ascii_lower(a.take(3)[i]) == ascii_lower(b.take(3)[i]));
            }
        }
    }
}

proof fn cut_keeps_the_base(name: Seq<char>)
    requires
        name.len() >= 255,
    ensures
        windows_reserved(name.take(255)) == windows_reserved(name),
{
    let cut = name.take(255);
    position_is_first(name, '.');
    position_is_first(cut, '.');
    let p = position(name, '.') as int;
    let q = position(cut, '.') as int;
    reveal_strlit("con");
    reveal_strlit("prn");
    reveal_strlit("aux");
    reveal_strlit("nul");
    assert("con"@.len() == 3 && "prn"@.len() == 3 && "aux"@.len() == 3 && "nul"@.len() == 3);
    if p < 255 {
        assert(cut[p] == '.');
        assert(q == p) by {
            if q < p {
                assert(cut[q] == name[q]);
            }
        }
        assert(cut.take(q) =~= name.take(p));
    } else {
        assert(q == 255) by {
            if q < 255 {
                assert(cut[q] == name[q]);
            }
        }
    }
}

/// A name that fills the 255 characters is cut for Windows too: to the same
/// characters, or to one fewer of them after a `_` where it is reserved.
pub proof fn long_name_is_cut_for_windows(input: Seq<char>)
    requires
        sanitized(input, false).len() == 255,
    ensures
        ({
            let name = sanitized(input, false);
            let own = sanitized(input, true);
            &&& !windows_reserved(name) ==> own == name
            &&& windows_reserved(name) ==> own == seq!['_'] + name.take(254)
        }),
{
    safe_name_facts(input, false);
    let name = safe_name(input, false);
    let own = sanitized(input, true);
    let ended = if name.last() == ' ' || name.last() == '.' {
        name.push('_')
    } else {
        name
    };
    assert(ended.take(255) =~= sanitized(input, false));
    cut_keeps_the_base(ended);
    if windows_reserved(ended) {
        assert(own =~= seq!['_'] + sanitized(input, false).take(254));
    } else {
        assert(own =~= sanitized(input, false));
    }
}

} // verus!
