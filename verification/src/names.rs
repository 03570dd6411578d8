//! Names: which ones a file may have, and which one is still free.
use vstd::prelude::*;
use crate::labels::{self, decimal};
use crate::paths::{self, extension, file_stem, PathStyle};
use crate::text::{
    self, cat3, chars_of, find_char, same_range, same_text, text_of, to_ascii_lower_text, to_ascii_upper_text, trimmed,
    trimmed_end,
};

verus! {

/// A character that Windows forbids in a name.
pub open spec fn is_forbidden(c: char) -> bool {
    c == '\\' || c == '/' || c == ':' || c == '*' || c == '?' || c == '"' || c == '<' || c == '>' || c == '|'
}

/// Some character is forbidden.
pub open spec fn has_forbidden(s: Seq<char>) -> bool {
    exists|i: int| 0 <= i < s.len() && is_forbidden(#[trigger] s[i])
}

/// What stands before the first dot, without white space at its end.
pub open spec fn base_name(s: Seq<char>) -> Seq<char> {
    text::trim_end(s.subrange(0, text::first_at(s, '.', 0)))
}

/// A device name of Windows, in any case.
pub open spec fn is_device(base: Seq<char>) -> bool {
    let u = text::ascii_upper_text(base);
    ||| u == "CON"@
    ||| u == "PRN"@
    ||| u == "AUX"@
    ||| u == "NUL"@
    ||| u.len() == 4 && (u.take(3) == "COM"@ || u.take(3) == "LPT"@) && '1' <= u[3] && u[3] <= '9'
}

/// What is wrong with a trimmed name, if anything.
pub open spec fn name_error(s: Seq<char>) -> Option<Seq<char>> {
    if s.len() == 0 {
        Some("Name can't be empty."@)
    } else if has_forbidden(s) {
        Some("Name can't contain \\ / : * ? \" < > |"@)
    } else if s == "."@ || s == ".."@ {
        Some("That name is reserved."@)
    } else if s.last() == '.' {
        Some("Name can't end with a dot."@)
    } else if is_device(base_name(s)) {
        Some("\""@ + base_name(s) + "\" is a name reserved by Windows."@)
    } else {
        None
    }
}

/// None of `\ / : * ? " < > |` occurs.
pub open spec fn holds_none_of_the_nine(s: Seq<char>) -> bool {
    forall|i: int|
        0 <= i < s.len() ==> {
            let c = #[trigger] s[i];
            c != '\\' && c != '/' && c != ':' && c != '*' && c != '?' && c != '"' && c != '<' && c != '>' && c != '|'
        }
}

/// An accepted name holds none of the nine characters `\ / : * ? " < > |`, is not
/// empty and does not end with a dot; and a name that holds one of them is refused
/// with the message that lists them.
pub proof fn law_accepted_name_holds_no_forbidden_character(s: Seq<char>)
    ensures
        name_error(s) is None ==> s.len() > 0 && s.last() != '.' && forall|i: int|
            0 <= i < s.len() ==> {
                let c = #[trigger] s[i];
                c != '\\' && c != '/' && c != ':' && c != '*' && c != '?' && c != '"' && c != '<' && c != '>' && c != '|'
            },
        s.len() > 0 && !holds_none_of_the_nine(s) ==> name_error(s) == Some("Name can't contain \\ / : * ? \" < > |"@),
{
    if name_error(s) is None {
        assert forall|i: int| 0 <= i < s.len() implies {
            let c = #[trigger] s[i];
            c != '\\' && c != '/' && c != ':' && c != '*' && c != '?' && c != '"' && c != '<' && c != '>' && c != '|'
        } by {
            assert(!is_forbidden(s[i]));
        }
    }
    if !holds_none_of_the_nine(s) {
        let i = choose|i: int|
            0 <= i < s.len() && !({
                let c = #[trigger] s[i];
                c != '\\' && c != '/' && c != ':' && c != '*' && c != '?' && c != '"' && c != '<' && c != '>' && c
                    != '|'
            });
        assert(is_forbidden(s[i]));
    }
}

/// Every other name is accepted: one that is not empty, holds none of the nine
/// characters and does not end with a dot, and whose part before the first dot has
/// some other length than three or four, which the reserved names have.
pub proof fn law_other_names_are_accepted(s: Seq<char>, dot: int)
    requires
        0 < s.len(),
        holds_none_of_the_nine(s),
        s.last() != '.',
        0 <= dot <= s.len(),
        forall|i: int| 0 <= i < dot ==> s[i] != '.',
        dot < s.len() ==> s[dot] == '.',
        dot == 0 || !text::is_space(s[dot - 1]),
        dot != 3 && dot != 4,
    ensures
        name_error(s) is None,
{
    assert(!has_forbidden(s)) by {
        if has_forbidden(s) {
            let i = choose|i: int| 0 <= i < s.len() && is_forbidden(#[trigger] s[i]);
            assert(!is_forbidden(s[i]));
        }
    }
    reveal_strlit(".");
    reveal_strlit("..");
    assert("."@.last() == '.' && ".."@.last() == '.');
    text::lemma_first_at_is(s, '.', 0, dot);
    let base = s.subrange(0, dot);
    assert(text::trim_end(base) == base);
    reveal_strlit("CON");
    reveal_strlit("PRN");
    reveal_strlit("AUX");
    reveal_strlit("NUL");
    assert(text::ascii_upper_text(base).len() == dot);
}

/// No accepted name is one that Windows keeps for a device, whatever the case of
/// its letters: of a name whose part before the first dot has three letters these
/// are not `CON`, `PRN`, `AUX` or `NUL`, and of one with four they are not `COM` or
/// `LPT` and a digit from 1 to 9.
pub proof fn law_no_device_is_accepted(s: Seq<char>, dot: int)
    requires
        name_error(s) is None,
        0 <= dot <= s.len(),
        forall|i: int| 0 <= i < dot ==> s[i] != '.',
        dot < s.len() ==> s[dot] == '.',
        dot == 0 || !text::is_space(s[dot - 1]),
    ensures
        dot == 3 ==> {
            let (a, b, c) = (text::ascii_upper(s[0]), text::ascii_upper(s[1]), text::ascii_upper(s[2]));
            &&& !(a == 'C' && b == 'O' && c == 'N')
            &&& !(a == 'P' && b == 'R' && c == 'N')
            &&& !(a == 'A' && b == 'U' && c == 'X')
            &&& !(a == 'N' && b == 'U' && c == 'L')
        },
        dot == 4 && '1' <= s[3] && s[3] <= '9' ==> {
            let (a, b, c) = (text::ascii_upper(s[0]), text::ascii_upper(s[1]), text::ascii_upper(s[2]));
            &&& !(a == 'C' && b == 'O' && c == 'M')
            &&& !(a == 'L' && b == 'P' && c == 'T')
        },
{
    text::lemma_first_at_is(s, '.', 0, dot);
    let base = s.subrange(0, dot);
    assert(text::trim_end(base) == base);
    let u = text::ascii_upper_text(base);
    reveal_strlit("CON");
    reveal_strlit("PRN");
    reveal_strlit("AUX");
    reveal_strlit("NUL");
    reveal_strlit("COM");
    reveal_strlit("LPT");
    if dot == 3 {
        let (a, b, c) = (text::ascii_upper(s[0]), text::ascii_upper(s[1]), text::ascii_upper(s[2]));
        assert(u[0] == a && u[1] == b && u[2] == c);
        assert(a == 'C' && b == 'O' && c == 'N' ==> u =~= "CON"@);
        assert(a == 'P' && b == 'R' && c == 'N' ==> u =~= "PRN"@);
        assert(a == 'A' && b == 'U' && c == 'X' ==> u =~= "AUX"@);
        assert(a == 'N' && b == 'U' && c == 'L' ==> u =~= "NUL"@);
    }
    if dot == 4 && '1' <= s[3] && s[3] <= '9' {
        let (a, b, c) = (text::ascii_upper(s[0]), text::ascii_upper(s[1]), text::ascii_upper(s[2]));
        assert(u[0] == a && u[1] == b && u[2] == c && u[3] == s[3]);
        assert(a == 'C' && b == 'O' && c == 'M' ==> u.take(3) =~= "COM"@);
        assert(a == 'L' && b == 'P' && c == 'T' ==> u.take(3) =~= "LPT"@);
    }
}

fn forbidden(c: char) -> (r: bool)
    ensures
        r == is_forbidden(c),
{
    c == '\\' || c == '/' || c == ':' || c == '*' || c == '?' || c == '"' || c == '<' || c == '>' || c == '|'
}

fn any_forbidden(v: &Vec<char>) -> (r: bool)
    ensures
        r == has_forbidden(v@),
{
    let mut i: usize = 0;
    while i < v.len()
        invariant
            i <= v@.len(),
            forall|j: int| 0 <= j < i ==> !is_forbidden(#[trigger] v@[j]),
        decreases v@.len() - i,
    {
        if forbidden(v[i]) {
            return true;
        }
        i += 1;
    }
    false
}

fn device(base: &str) -> (r: bool)
    ensures
        r == is_device(base@),
{
    let up = to_ascii_upper_text(base);
    let u = up.as_str();
    if same_text(u, "CON") || same_text(u, "PRN") || same_text(u, "AUX") || same_text(u, "NUL") {
        return true;
    }
    let v = chars_of(u);
    if v.len() != 4 || !('1' <= v[3] && v[3] <= '9') {
        return false;
    }
    let head = text_of(&v, 0, 3);
    assert(head@ =~= u@.take(3));
    same_text(head.as_str(), "COM") || same_text(head.as_str(), "LPT")
}

/// Whether a name, without the white space around it, is one that Windows takes;
/// what is wrong with it otherwise.
pub fn validate_name_syntax(name: &str) -> (r: Result<String, String>)
    ensures
        match r {
            Ok(n) => n@ == text::trim(name@) && name_error(text::trim(name@)) is None,
            Err(e) => name_error(text::trim(name@)) == Some(e@),
        },
        r matches Ok(n) ==> n@.len() > 0 && n@.last() != '.' && holds_none_of_the_nine(n@),
{
    let t = trimmed(name);
    let v = chars_of(t.as_str());
    if v.len() == 0 {
        return Err("Name can't be empty.".to_owned());
    }
    if any_forbidden(&v) {
        return Err("Name can't contain \\ / : * ? \" < > |".to_owned());
    }
    if same_text(t.as_str(), ".") || same_text(t.as_str(), "..") {
        return Err("That name is reserved.".to_owned());
    }
    if v[v.len() - 1] == '.' {
        return Err("Name can't end with a dot.".to_owned());
    }
    let dot = find_char(&v, '.', 0);
    let base = trimmed_end(text_of(&v, 0, dot).as_str());
    if device(base.as_str()) {
        return Err(cat3("\"", base.as_str(), "\" is a name reserved by Windows."));
    }
    proof {
        law_accepted_name_holds_no_forbidden_character(t@);
    }
    Ok(t)
}

/// A name that is accepted is never empty, never a step in a path, holds no
/// separator, and stands for itself as a path: it can name an entry of a folder.
pub proof fn law_valid_name_is_one_component(style: PathStyle, name: Seq<char>)
    requires
        name_error(name) is None,
    ensures
        paths::is_entry_name(name),
        paths::file_name_spec(style, name) == Some(name),
        paths::components(style, name) == seq![paths::Meaning::Name(name)],
{
    assert forall|i: int| 0 <= i < name.len() implies #[trigger] name[i] != '/' && name[i] != '\\' && name[i] != ':' by {
        assert(!is_forbidden(name[i]));
    }
    paths::lemma_plain_is_its_name(style, name);
}

/// The `i`-th name that is tried for a new folder.
pub open spec fn folder_candidate(i: nat) -> Seq<char> {
    if i <= 1 {
        "New folder"@
    } else {
        "New folder ("@ + labels::dec(i) + ")"@
    }
}

/// Some entry has that name, whatever the case of its ASCII letters.
pub open spec fn is_taken(names: Seq<Seq<char>>, name: Seq<char>) -> bool {
    exists|i: int| 0 <= i < names.len() && text::same_but_ascii_case(#[trigger] names[i], name)
}

/// The first candidate from `i` on that is not taken, as far as 64 bits count.
pub open spec fn free_folder_name(names: Seq<Seq<char>>, i: nat) -> Seq<char>
    decreases u64::MAX - i,
{
    if i >= u64::MAX || !is_taken(names, folder_candidate(i)) {
        folder_candidate(i)
    } else {
        free_folder_name(names, i + 1)
    }
}

proof fn lemma_candidates_differ(i: nat, j: nat)
    requires
        1 <= i < j,
    ensures
        !text::same_but_ascii_case(folder_candidate(i), folder_candidate(j)),
{
    reveal_strlit("New folder");
    reveal_strlit("New folder (");
    reveal_strlit(")");
    let (x, y) = (folder_candidate(i), folder_candidate(j));
    let (a, b) = (labels::dec(i), labels::dec(j));
    if text::same_but_ascii_case(x, y) {
        assert(text::ascii_lower_text(x).len() == text::ascii_lower_text(y).len());
        if i > 1 {
            assert forall|k: int| 0 <= k < a.len() implies a[k] == b[k] by {
                labels::lemma_dec_digits(i, k);
                labels::lemma_dec_digits(j, k);
                assert(x[12 + k] == a[k]);
                assert(y[12 + k] == b[k]);
                assert(text::ascii_lower_text(x)[12 + k] == text::ascii_lower_text(y)[12 + k]);
            }
            assert(a =~= b);
            labels::lemma_dec_names_one_number(i, j);
        }
    }
}

/// Where the first `k` candidates are taken, there are as many names.
proof fn lemma_names_for_candidates(names: Seq<Seq<char>>, k: nat)
    requires
        forall|i: nat| 1 <= i <= k ==> is_taken(names, #[trigger] folder_candidate(i)),
    ensures
        k <= names.len(),
{
    let holder = |i: int|
        choose|h: int| 0 <= h < names.len() && text::same_but_ascii_case(#[trigger] names[h], folder_candidate(i as nat));
    let hs = Seq::new(k, |i: int| holder(i + 1));
    assert forall|i: int| 0 <= i < k implies 0 <= #[trigger] hs[i] < names.len() && text::same_but_ascii_case(
        names[hs[i]],
        folder_candidate((i + 1) as nat),
    ) by {
        assert(is_taken(names, folder_candidate((i + 1) as nat)));
    }
    assert forall|i: int, j: int| 0 <= i < j < k implies hs[i] != hs[j] by {
        lemma_candidates_differ((i + 1) as nat, (j + 1) as nat);
    }
    assert(hs.no_duplicates());
    hs.unique_seq_to_set();
    vstd::set_lib::lemma_int_range(0, names.len() as int);
    assert(hs.to_set().subset_of(vstd::set_lib::set_int_range(0, names.len() as int)));
    vstd::set_lib::lemma_len_subset(hs.to_set(), vstd::set_lib::set_int_range(0, names.len() as int));
}

/// The names with their ASCII letters lowered.
fn lowered(names: &Vec<String>) -> (r: Vec<Vec<char>>)
    ensures
        r@.len() == names@.len(),
        forall|i: int| 0 <= i < r@.len() ==> (#[trigger] r@[i])@ == text::ascii_lower_text(names@[i]@),
{
    let mut out: Vec<Vec<char>> = Vec::new();
    let mut i: usize = 0;
    while i < names.len()
        invariant
            i <= names@.len(),
            out@.len() == i,
            forall|j: int| 0 <= j < i ==> (#[trigger] out@[j])@ == text::ascii_lower_text(names@[j]@),
        decreases names@.len() - i,
    {
        let low = chars_of(to_ascii_lower_text(names[i].as_str()).as_str());
        out.push(low);
        i += 1;
    }
    out
}

/// Whether some of the lowered names is that name lowered.
fn taken(low: &Vec<Vec<char>>, Ghost(names): Ghost<Seq<Seq<char>>>, name: &str) -> (r: bool)
    requires
        low@.len() == names.len(),
        forall|i: int| 0 <= i < low@.len() ==> (#[trigger] low@[i])@ == text::ascii_lower_text(names[i]),
    ensures
        r == is_taken(names, name@),
{
    let want = chars_of(to_ascii_lower_text(name).as_str());
    let mut i: usize = 0;
    while i < low.len()
        invariant
            i <= low@.len(),
            low@.len() == names.len(),
            want@ == text::ascii_lower_text(name@),
            forall|j: int| 0 <= j < low@.len() ==> (#[trigger] low@[j])@ == text::ascii_lower_text(names[j]),
            forall|j: int| 0 <= j < i ==> !text::same_but_ascii_case(#[trigger] names[j], name@),
        decreases low@.len() - i,
    {
        let one = &low[i];
        proof {
            assert(one@.subrange(0, one@.len() as int) =~= one@);
            assert(want@.subrange(0, want@.len() as int) =~= want@);
        }
        if same_range(one, 0, one.len(), &want, 0, want.len()) {
            assert(text::same_but_ascii_case(names[i as int], name@));
            return true;
        }
        i += 1;
    }
    false
}

/// `New folder`, or `New folder (2)`, and so on: the first that no entry has.
pub fn unique_new_folder_name(names: &Vec<String>) -> (r: String)
    ensures
        r@ == free_folder_name(text::texts(names@), 1),
        names@.len() < u64::MAX ==> !is_taken(text::texts(names@), r@),
{
    let ghost ns = text::texts(names@);
    let low = lowered(names);
    let mut i: u64 = 1;
    loop
        invariant
            1 <= i,
            ns == text::texts(names@),
            low@.len() == ns.len(),
            forall|j: int| 0 <= j < low@.len() ==> (#[trigger] low@[j])@ == text::ascii_lower_text(ns[j]),
            free_folder_name(ns, 1) == free_folder_name(ns, i as nat),
            forall|j: nat| 1 <= j < i ==> is_taken(ns, #[trigger] folder_candidate(j)),
        decreases u64::MAX - i,
    {
        let cand = if i == 1 {
            "New folder".to_owned()
        } else {
            cat3("New folder (", decimal(i).as_str(), ")")
        };
        assert(cand@ == folder_candidate(i as nat));
        if i == u64::MAX || !taken(&low, Ghost(ns), cand.as_str()) {
            proof {
                if is_taken(ns, cand@) {
                    lemma_names_for_candidates(ns, i as nat);
                }
            }
            return cand;
        }
        i += 1;
    }
}

/// The suffix that the `i`-th copy of a name gets.
pub open spec fn copy_suffix(i: nat) -> Seq<char> {
    if i == 1 {
        " - Copy"@
    } else {
        " - Copy ("@ + labels::dec(i) + ")"@
    }
}

/// A name with a suffix put before its extension.
pub open spec fn suffixed(style: PathStyle, name: Seq<char>, suffix: Seq<char>) -> Seq<char> {
    let stem = match paths::stem_spec(style, name) {
        Some(s) => s,
        None => name,
    };
    match paths::extension_spec(style, name) {
        Some(e) => stem + suffix + "."@ + e,
        None => stem + suffix,
    }
}

/// The `i`-th destination that is tried for `name` in `dir`: the name itself,
/// then its copies.
pub open spec fn dest_candidate(style: PathStyle, dir: Seq<char>, name: Seq<char>, i: nat) -> Seq<char> {
    paths::join_spec(
        style,
        dir,
        if i == 0 {
            name
        } else {
            suffixed(style, name, copy_suffix(i))
        },
    )
}

/// The question whether the path is taken can have been answered so.
pub open spec fn answered<F: Fn(&str) -> bool>(occupied: F, path: Seq<char>, yes: bool) -> bool {
    exists|p: &str| p@ == path && #[trigger] call_ensures(occupied, (p,), yes)
}

fn with_suffix(style: PathStyle, name: &str, suffix: &str) -> (r: String)
    ensures
        r@ == suffixed(style, name@, suffix@),
{
    let stem = match file_stem(style, name) {
        Some(s) => s,
        None => name.to_owned(),
    };
    let mut out = stem;
    out.append(suffix);
    match extension(style, name) {
        Some(e) => {
            out.append(".");
            out.append(e.as_str());
        },
        None => {},
    }
    out
}

/// A destination in `dir` for `name` that does not clash: the name, else the
/// first of its copies, with the suffix before the extension. `occupied` is
/// asked about each candidate in turn and the first that it denies is taken, so
/// nothing that exists is overwritten. Only where every candidate that 64 bits
/// count is taken is there none, and the last comes out.
pub fn unique_dest<F: Fn(&str) -> bool>(style: PathStyle, dir: &str, name: &str, occupied: F) -> (r: String)
    requires
        forall|p: &str| #[trigger] call_requires(occupied, (p,)),
    ensures
        exists|i: nat|
            i <= u64::MAX && r@ == #[trigger] dest_candidate(style, dir@, name@, i) && (answered(occupied, r@, false)
                || (i == u64::MAX && answered(occupied, r@, true))) && forall|j: nat|
                j < i ==> answered(occupied, #[trigger] dest_candidate(style, dir@, name@, j), true),
{
    let mut i: u64 = 0;
    loop
        invariant
            forall|p: &str| #[trigger] call_requires(occupied, (p,)),
            forall|j: nat| j < i ==> answered(occupied, #[trigger] dest_candidate(style, dir@, name@, j), true),
        decreases u64::MAX - i,
    {
        let cand = if i == 0 {
            paths::join(style, dir, name)
        } else if i == 1 {
            paths::join(style, dir, with_suffix(style, name, " - Copy").as_str())
        } else {
            let suffix = cat3(" - Copy (", decimal(i).as_str(), ")");
            paths::join(style, dir, with_suffix(style, name, suffix.as_str()).as_str())
        };
        assert(cand@ == dest_candidate(style, dir@, name@, i as nat));
        let path: &str = cand.as_str();
        let yes = occupied(path);
        assert(call_ensures(occupied, (path,), yes));
        if !yes || i == u64::MAX {
            return cand;
        }
        i += 1;
    }
}

/// What tells a copy apart is put before the extension of a name, which stays; a
/// name without an extension gets it at its end.
pub proof fn law_copies_keep_the_extension(style: PathStyle, stem: Seq<char>, ext: Seq<char>, suffix: Seq<char>)
    requires
        stem.len() > 0,
        !ext.contains('.'),
        paths::is_entry_name(stem + seq!['.'] + ext),
    ensures
        suffixed(style, stem + seq!['.'] + ext, suffix) == stem + suffix + seq!['.'] + ext,
        paths::is_entry_name(stem) && !stem.contains('.') ==> suffixed(style, stem, suffix) == stem + suffix,
{
    let name = stem + seq!['.'] + ext;
    reveal_strlit(".");
    assert("."@ =~= seq!['.']);
    paths::lemma_plain_is_its_name(style, name);
    paths::lemma_last_dot_is(name);
    let d = paths::last_dot(name);
    assert(name[stem.len() as int] == '.');
    assert(d == stem.len()) by {
        if d > stem.len() {
            assert(ext[d - stem.len() - 1] == '.');
        }
    }
    assert(name.subrange(0, d) =~= stem);
    assert(name.subrange(d + 1, name.len() as int) =~= ext);
    if paths::is_entry_name(stem) && !stem.contains('.') {
        paths::lemma_plain_is_its_name(style, stem);
        paths::lemma_last_dot_is(stem);
        if paths::last_dot(stem) >= 0 {
            assert(stem[paths::last_dot(stem)] == '.');
        }
    }
}

} // verus!
