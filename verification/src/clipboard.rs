//! The clipboard registry: the OS clipboard carries the copy payload as
//! `file://<path>` lines, and an in-memory cut buffer marks a pending move.
//! Copy always clears the cut marker; cut refreshes buffer and payload
//! together; reading for a paste drains the buffer so a second paste
//! without a new cut is a no-op.

use crate::fs::{find, has_path, Fs, FsNode, FsNodeV, PathV};
use crate::types::FileItem;
use vstd::prelude::*;
use vstd::string::*;

verus! {

/// The paths of a batch of file items.
pub open spec fn spec_paths_of(files: Seq<FileItem>) -> Seq<Seq<char>> {
    files.map(|i: int, f: FileItem| f.path@)
}

/// The clipboard text for a batch of paths: one `file://<path>` line per
/// path, each terminated by a newline.
pub open spec fn spec_payload(paths: Seq<Seq<char>>) -> Seq<char>
    decreases paths.len(),
{
    if paths.len() == 0 {
        Seq::<char>::empty()
    } else {
        spec_payload(paths.drop_last()) + seq!['f', 'i', 'l', 'e', ':', '/', '/']
            + paths.last() + seq!['\n']
    }
}

/// Builds the clipboard text for a batch of files.
pub fn clipboard_payload(files: &Vec<FileItem>) -> (r: String)
    ensures
        r@ == spec_payload(spec_paths_of(files@)),
{
    let ghost ps = spec_paths_of(files@);
    let mut r = String::new();
    proof {
        reveal_strlit("file://");
        assert("file://"@ =~= seq!['f', 'i', 'l', 'e', ':', '/', '/']);
        reveal_strlit("\n");
        assert("\n"@ =~= seq!['\n']);
        assert(ps.subrange(0, 0) =~= Seq::<Seq<char>>::empty());
    }
    let mut i: usize = 0;
    while i < files.len()
        invariant
            i <= files.len(),
            ps == spec_paths_of(files@),
            ps.len() == files@.len(),
            r@ == spec_payload(ps.subrange(0, i as int)),
        decreases files.len() - i,
    {
        proof {
            reveal_strlit("file://");
            assert("file://"@ =~= seq!['f', 'i', 'l', 'e', ':', '/', '/']);
            reveal_strlit("\n");
            assert("\n"@ =~= seq!['\n']);
        }
        r.append("file://");
        r.append(files[i].path.as_str());
        r.append("\n");
        proof {
            assert(ps.subrange(0, i + 1).drop_last() =~= ps.subrange(0, i as int));
            assert(ps.subrange(0, i + 1).last() == ps[i as int]);
            assert(ps[i as int] == files@[i as int].path@);
            assert(r@ =~= spec_payload(ps.subrange(0, i + 1)));
        }
        i = i + 1;
    }
    proof {
        assert(ps.subrange(0, files@.len() as int) =~= ps);
    }
    r
}

/// Whether `s` begins with `prefix`.
pub fn str_starts_with(s: &str, prefix: &str) -> (r: bool)
    ensures
        r == (s@.len() >= prefix@.len() && s@.subrange(0, prefix@.len() as int) == prefix@),
{
    let n = s.unicode_len();
    let m = prefix.unicode_len();
    if n < m {
        return false;
    }
    let mut i: usize = 0;
    while i < m
        invariant
            i <= m,
            m == prefix@.len(),
            m <= n == s@.len(),
            forall|j: int| 0 <= j < i ==> s@[j] == prefix@[j],
        decreases m - i,
    {
        if s.get_char(i) != prefix.get_char(i) {
            proof {
                assert(s@[i as int] != prefix@[i as int]);
                if s@.subrange(0, prefix@.len() as int) == prefix@ {
                    assert(s@.subrange(0, prefix@.len() as int)[i as int] == prefix@[i as int]);
                }
            }
            return false;
        }
        i = i + 1;
    }
    proof {
        assert(s@.subrange(0, prefix@.len() as int) =~= prefix@);
    }
    true
}

/// Whether two strings hold the same characters.
pub fn str_eq(a: &str, b: &str) -> (r: bool)
    ensures
        r == (a@ == b@),
{
    let na = a.unicode_len();
    let nb = b.unicode_len();
    if na != nb {
        return false;
    }
    if str_starts_with(a, b) {
        proof {
            assert(a@.subrange(0, b@.len() as int) =~= a@);
        }
        true
    } else {
        proof {
            if a@ == b@ {
                assert(a@.subrange(0, b@.len() as int) =~= b@);
            }
        }
        false
    }
}

/// The lines of the parse, glued back together with newlines.
pub open spec fn spec_joined(lines: Seq<Seq<char>>) -> Seq<char>
    decreases lines.len(),
{
    if lines.len() == 0 {
        Seq::<char>::empty()
    } else if lines.len() == 1 {
        lines[0]
    } else {
        spec_joined(lines.drop_last()) + seq!['\n'] + lines.last()
    }
}

/// Splits text on newlines. The result is the unique newline-free line list
/// that joins back to the text.
pub fn split_lines(text: &str) -> (r: Vec<String>)
    ensures
        spec_joined(r.deep_view()) == text@,
        forall|i: int, j: int|
            0 <= i < r.deep_view().len() && 0 <= j < r.deep_view()[i].len()
                ==> r.deep_view()[i][j] != '\n',
        r.deep_view().len() >= 1,
{
    let n = text.unicode_len();
    let mut r: Vec<String> = Vec::new();
    let mut start: usize = 0;
    let mut i: usize = 0;
    while i < n
        invariant
            start <= i <= n,
            n == text@.len(),
            r.deep_view().len() == 0 ==> start == 0,
            r.deep_view().len() >= 1 ==> spec_joined(r.deep_view()) + seq!['\n'] =~= text@.subrange(
                0,
                start as int,
            ),
            forall|k: int, j: int|
                0 <= k < r.deep_view().len() && 0 <= j < r.deep_view()[k].len()
                    ==> r.deep_view()[k][j] != '\n',
            forall|j: int| start <= j < i ==> text@[j] != '\n',
        decreases n - i,
    {
        if text.get_char(i) == '\n' {
            let line = text.substring_char(start, i).to_owned();
            let ghost rold = r.deep_view();
            r.push(line);
            proof {
                assert(r.deep_view() =~~= rold.push(text@.subrange(start as int, i as int)));
                if rold.len() == 0 {
                    assert(spec_joined(r.deep_view()) == text@.subrange(0, i as int));
                } else {
                    assert(r.deep_view().drop_last() =~= rold);
                    assert(spec_joined(r.deep_view()) =~= spec_joined(rold) + seq!['\n']
                        + text@.subrange(start as int, i as int));
                    assert(spec_joined(r.deep_view()) =~= text@.subrange(0, i as int));
                }
                assert(spec_joined(r.deep_view()) + seq!['\n'] =~= text@.subrange(0, i + 1));
            }
            start = i + 1;
        }
        i = i + 1;
    }
    let line = text.substring_char(start, n).to_owned();
    let ghost rold = r.deep_view();
    r.push(line);
    proof {
        assert(r.deep_view() =~~= rold.push(text@.subrange(start as int, n as int)));
        if rold.len() == 0 {
            assert(spec_joined(r.deep_view()) =~= text@.subrange(0, n as int));
        } else {
            assert(r.deep_view().drop_last() =~= rold);
            assert(spec_joined(r.deep_view()) =~= spec_joined(rold) + seq!['\n'] + text@.subrange(
                start as int,
                n as int,
            ));
            assert(spec_joined(r.deep_view()) =~= text@.subrange(0, n as int));
        }
        assert(text@.subrange(0, n as int) =~= text@);
    }
    r
}

/// The line with a leading `file://` scheme removed.
pub open spec fn spec_strip_scheme(line: Seq<char>) -> Seq<char> {
    let scheme = seq!['f', 'i', 'l', 'e', ':', '/', '/'];
    if line.len() >= 7 && line.subrange(0, 7) == scheme {
        line.skip(7)
    } else {
        line
    }
}

/// Removes a leading `file://` scheme from one payload line.
pub fn strip_file_scheme(line: &String) -> (r: String)
    ensures
        r@ == spec_strip_scheme(line@),
{
    proof {
        reveal_strlit("file://");
        assert("file://"@ =~= seq!['f', 'i', 'l', 'e', ':', '/', '/']);
    }
    if str_starts_with(line.as_str(), "file://") {
        let n = line.unicode_len();
        let r = line.as_str().substring_char(7, n).to_owned();
        proof {
            assert(r@ =~= line@.skip(7));
        }
        r
    } else {
        line.clone()
    }
}

/// The parse of one clipboard text: `None` unless it begins with
/// `file:///`; otherwise its newline-separated lines, minus the empty line
/// after the final newline, each with the scheme stripped.
pub open spec fn spec_parse_lines(lines: Seq<Seq<char>>) -> Seq<Seq<char>>
    recommends
        lines.len() >= 1,
{
    lines.drop_last().map(|i: int, l: Seq<char>| spec_strip_scheme(l))
}

/// Parses the OS clipboard text into the staged paths. Text that does not
/// start with `file:///` is no file payload: that is not an error, it only
/// means there is nothing to paste.
pub fn parse_clipboard_text(text: &str) -> (r: Option<Vec<String>>)
    ensures
        r is Some <==> (text@.len() >= 8 && text@.subrange(0, 8) == seq![
            'f',
            'i',
            'l',
            'e',
            ':',
            '/',
            '/',
            '/',
        ]),
        r is Some ==> exists|lines: Seq<Seq<char>>|
            {
                &&& spec_joined(lines) == text@
                &&& lines.len() >= 1
                &&& (forall|i: int, j: int|
                    0 <= i < lines.len() && 0 <= j < lines[i].len() ==> lines[i][j] != '\n')
                &&& r->0.deep_view() == #[trigger] spec_parse_lines(lines)
            },
{
    proof {
        reveal_strlit("file:///");
        assert("file:///"@ =~= seq!['f', 'i', 'l', 'e', ':', '/', '/', '/']);
    }
    if !str_starts_with(text, "file:///") {
        return None;
    }
    let lines = split_lines(text);
    let ghost linesv = lines.deep_view();
    let mut r: Vec<String> = Vec::new();
    let mut i: usize = 0;
    proof {
        assert(r.deep_view() =~= linesv.subrange(0, 0).map(
            |k: int, l: Seq<char>| spec_strip_scheme(l),
        ));
    }
    while i < lines.len() - 1
        invariant
            lines@.len() >= 1,
            i <= lines@.len() - 1,
            linesv == lines.deep_view(),
            r.deep_view() == linesv.subrange(0, i as int).map(
                |k: int, l: Seq<char>| spec_strip_scheme(l),
            ),
        decreases lines.len() - i,
    {
        let stripped = strip_file_scheme(&lines[i]);
        let ghost rold = r.deep_view();
        r.push(stripped);
        proof {
            assert(linesv[i as int] == lines@[i as int].deep_view());
            assert(stripped@ == spec_strip_scheme(linesv[i as int]));
            assert(r.deep_view() =~= rold.push(stripped@));
            assert forall|k: int|
                0 <= k < i + 1 implies r.deep_view()[k] == linesv.subrange(0, i + 1).map(
                |k2: int, l: Seq<char>| spec_strip_scheme(l),
            )[k] by {
                if k < i {
                    assert(r.deep_view()[k] == rold[k]);
                    assert(rold[k] == spec_strip_scheme(linesv[k]));
                }
            }
            assert(r.deep_view() =~= linesv.subrange(0, i + 1).map(
                |k: int, l: Seq<char>| spec_strip_scheme(l),
            ));
        }
        i = i + 1;
    }
    proof {
        assert(linesv.subrange(0, linesv.len() - 1) =~= linesv.drop_last());
        assert(r.deep_view() =~= spec_parse_lines(linesv));
    }
    Some(r)
}


/// The OS clipboard handle, an outside type the verifier treats as opaque.
#[verifier::external_type_specification]
#[verifier::external_body]
pub struct ExClipboard(arboard::Clipboard);

/// Relies on arboard::Clipboard::new: opens a handle to the OS clipboard;
/// whether one is available depends on the environment, so nothing more is
/// promised.
#[verifier::external_body]
fn clipboard_new() -> (r: Option<arboard::Clipboard>) {
    arboard::Clipboard::new().ok()
}

/// Relies on arboard::Clipboard::set_text: stores the text in the OS
/// clipboard's text slot; whether the store sticks depends on the
/// environment, so only the success flag is returned.
#[verifier::external_body]
fn clipboard_set_text(clip: &mut arboard::Clipboard, text: String) -> (r: bool) {
    clip.set_text(text).is_ok()
}

/// Relies on arboard::Clipboard::get_text: reads the OS clipboard's text
/// slot; what comes back depends on the environment.
#[verifier::external_body]
fn clipboard_get_text(clip: &mut arboard::Clipboard) -> (r: Option<String>) {
    clip.get_text().ok()
}

/// Writes the OS clipboard's text slot; false when no clipboard is
/// available or the store failed.
pub fn set_os_clipboard_text(text: String) -> (r: bool) {
    match clipboard_new() {
        Some(mut clip) => clipboard_set_text(&mut clip, text),
        None => false,
    }
}

/// Reads the OS clipboard's text slot; `None` when no clipboard is
/// available or it holds no text.
pub fn get_os_clipboard_text() -> (r: Option<String>) {
    match clipboard_new() {
        Some(mut clip) => clipboard_get_text(&mut clip),
        None => None,
    }
}

/// The in-memory half of the registry: the files a pending cut would move.
pub struct ClipboardState {
    cut_buffer: Vec<FileItem>,
}

impl ClipboardState {
    /// The staged cut paths.
    pub closed spec fn cut_paths(self) -> Seq<Seq<char>> {
        spec_paths_of(self.cut_buffer@)
    }

    /// An empty registry: nothing staged.
    pub fn new() -> (r: ClipboardState)
        ensures
            r.cut_paths().len() == 0,
    {
        let r = ClipboardState { cut_buffer: Vec::new() };
        proof {
            assert(r.cut_paths() =~= Seq::<Seq<char>>::empty());
        }
        r
    }
}

/// Copies files to the clipboard: serializes one `file://<path>` line per
/// file into the OS clipboard text slot. A plain copy (not a cut) clears
/// the pending cut buffer, so copy and cut marker always agree on the
/// active file set. Returns whether the OS clipboard took the payload.
pub fn copy_file(files: &Vec<FileItem>, is_cut: bool, state: &mut ClipboardState) -> (ok: bool)
    ensures
        !is_cut ==> final(state).cut_paths().len() == 0,
        is_cut ==> *final(state) == *old(state),
{
    let text = clipboard_payload(files);
    if !is_cut {
        state.cut_buffer = Vec::new();
        proof {
            assert(state.cut_paths() =~= Seq::<Seq<char>>::empty());
        }
    }
    set_os_clipboard_text(text)
}

/// Cuts files: stages them in the cut buffer, then copies them to the OS
/// clipboard with the cut marker set, which leaves the buffer in place.
pub fn cut_file(files: Vec<FileItem>, state: &mut ClipboardState) -> (ok: bool)
    ensures
        final(state).cut_paths() == spec_paths_of(files@),
{
    let text = clipboard_payload(&files);
    state.cut_buffer = files;
    set_os_clipboard_text(text)
}

/// The index after the last slash never passes the end, and sits strictly
/// inside a text that does not end with a slash.
pub proof fn lemma_after_last_slash_bound(s: Seq<char>)
    ensures
        0 <= crate::types::spec_after_last_slash(s) <= s.len(),
        s.len() > 0 && s.last() != '/' ==> crate::types::spec_after_last_slash(s) < s.len(),
    decreases s.len(),
{
    if s.len() > 0 && s.last() != '/' {
        lemma_after_last_slash_bound(s.drop_last());
    }
}

/// Within a slash-free run that starts right after a slash (or at the
/// beginning), the index after the last slash is the run's start.
proof fn lemma_after_slash_run(s: Seq<char>, start: int, i: int)
    requires
        0 <= start <= i <= s.len(),
        start == 0 || s[start - 1] == '/',
        forall|j: int| start <= j < i ==> s[j] != '/',
    ensures
        crate::types::spec_after_last_slash(s.subrange(0, i)) == start,
    decreases i - start,
{
    if i == start {
        if start == 0 {
            assert(s.subrange(0, 0) =~= Seq::<char>::empty());
        } else {
            assert(s.subrange(0, i).last() == s[start - 1]);
        }
    } else {
        assert(s.subrange(0, i).last() == s[i - 1]);
        assert(s.subrange(0, i).drop_last() =~= s.subrange(0, i - 1));
        lemma_after_slash_run(s, start, i - 1);
    }
}

/// The non-empty, slash-free components of a path string, in order: what
/// splitting on every slash and dropping the empty pieces leaves.
pub open spec fn spec_path_components(s: Seq<char>) -> Seq<Seq<char>>
    decreases s.len(),
    via spec_path_components_decreases
{
    if s.len() == 0 {
        Seq::<Seq<char>>::empty()
    } else if s.last() == '/' {
        spec_path_components(s.drop_last())
    } else {
        spec_path_components(s.subrange(0, crate::types::spec_after_last_slash(s))).push(
            s.skip(crate::types::spec_after_last_slash(s)),
        )
    }
}

#[via_fn]
proof fn spec_path_components_decreases(s: Seq<char>) {
    if s.len() > 0 && s.last() != '/' {
        lemma_after_last_slash_bound(s);
    }
}

/// Splits an absolute path string into its non-empty components.
pub fn path_components(s: &str) -> (r: Vec<String>)
    ensures
        r.deep_view() == spec_path_components(s@),
        forall|i: int| 0 <= i < r.deep_view().len() ==> r.deep_view()[i].len() >= 1,
        forall|i: int, j: int|
            0 <= i < r.deep_view().len() && 0 <= j < r.deep_view()[i].len()
                ==> r.deep_view()[i][j] != '/',
{
    let n = s.unicode_len();
    let mut r: Vec<String> = Vec::new();
    let mut start: usize = 0;
    let mut i: usize = 0;
    proof {
        assert(s@.subrange(0, 0) =~= Seq::<char>::empty());
    }
    while i < n
        invariant
            start <= i <= n,
            n == s@.len(),
            start == 0 || s@[start - 1] == '/',
            r.deep_view() == spec_path_components(s@.subrange(0, start as int)),
            forall|k: int| 0 <= k < r.deep_view().len() ==> r.deep_view()[k].len() >= 1,
            forall|k: int, j: int|
                0 <= k < r.deep_view().len() && 0 <= j < r.deep_view()[k].len()
                    ==> r.deep_view()[k][j] != '/',
            forall|j: int| start <= j < i ==> s@[j] != '/',
        decreases n - i,
    {
        if s.get_char(i) == '/' {
            if i > start {
                let seg = s.substring_char(start, i).to_owned();
                let ghost rold = r.deep_view();
                r.push(seg);
                proof {
                    assert(r.deep_view() =~~= rold.push(s@.subrange(start as int, i as int)));
                    lemma_after_slash_run(s@, start as int, i as int);
                    assert(s@.subrange(0, i as int).last() == s@[i - 1]);
                    assert(s@.subrange(0, i as int).subrange(0, start as int) =~= s@.subrange(
                        0,
                        start as int,
                    ));
                    assert(s@.subrange(0, i as int).skip(start as int) =~= s@.subrange(
                        start as int,
                        i as int,
                    ));
                    assert(spec_path_components(s@.subrange(0, i as int)) == rold.push(
                        s@.subrange(start as int, i as int),
                    ));
                    assert(s@.subrange(0, i + 1).last() == s@[i as int]);
                    assert(s@.subrange(0, i + 1).drop_last() =~= s@.subrange(0, i as int));
                }
            } else {
                proof {
                    assert(s@.subrange(0, i + 1).last() == s@[i as int]);
                    assert(s@.subrange(0, i + 1).drop_last() =~= s@.subrange(0, i as int));
                    assert(s@.subrange(0, i as int) =~= s@.subrange(0, start as int));
                }
            }
            start = i + 1;
        }
        i = i + 1;
    }
    if n > start {
        let seg = s.substring_char(start, n).to_owned();
        let ghost rold = r.deep_view();
        r.push(seg);
        proof {
            assert(r.deep_view() =~~= rold.push(s@.subrange(start as int, n as int)));
            lemma_after_slash_run(s@, start as int, n as int);
            assert(s@.subrange(0, n as int) =~= s@);
            assert(s@.last() == s@[n - 1]);
            assert(s@.subrange(0, start as int) =~= s@.subrange(0, start as int));
            assert(s@.skip(start as int) =~= s@.subrange(start as int, n as int));
            assert(spec_path_components(s@) == rold.push(s@.subrange(start as int, n as int)));
        }
    } else {
        proof {
            assert(s@.subrange(0, start as int) =~= s@);
        }
    }
    r
}

/// The component lists a batch of path strings stands for: one list per
/// path that has any components at all.
pub open spec fn spec_source_lists(paths: Seq<Seq<char>>) -> Seq<Seq<Seq<char>>>
    decreases paths.len(),
{
    if paths.len() == 0 {
        Seq::<Seq<Seq<char>>>::empty()
    } else {
        let rest = spec_source_lists(paths.drop_last());
        if spec_path_components(paths.last()).len() > 0 {
            rest.push(spec_path_components(paths.last()))
        } else {
            rest
        }
    }
}

/// Resolves what a paste should act on: a non-empty cut buffer wins and is
/// drained — so a second paste without a new cut or copy is a no-op — and
/// only an empty buffer falls back to parsing the OS clipboard text. The
/// returned sources are exactly the component lists of the staged paths, or
/// of the parsed payload lines. An absent or ill-formed text is not an
/// error: it only means there is nothing to paste.
pub fn resolve_paste_sources(state: &mut ClipboardState, clipboard_text: Option<String>) -> (r: (
    Vec<Vec<String>>,
    bool,
))
    ensures
        r.1 == (old(state).cut_paths().len() > 0),
        r.1 ==> final(state).cut_paths().len() == 0,
        r.1 ==> r.0.deep_view() == spec_source_lists(old(state).cut_paths()),
        !r.1 ==> *final(state) == *old(state),
        !r.1 ==> match clipboard_text {
            Option::None => r.0.deep_view().len() == 0,
            Option::Some(text) => {
                let payload = text@.len() >= 8 && text@.subrange(0, 8) == seq![
                    'f',
                    'i',
                    'l',
                    'e',
                    ':',
                    '/',
                    '/',
                    '/',
                ];
                &&& (!payload ==> r.0.deep_view().len() == 0)
                &&& (payload ==> exists|lines: Seq<Seq<char>>|
                    {
                        &&& spec_joined(lines) == text@
                        &&& lines.len() >= 1
                        &&& (forall|i: int, j: int|
                            0 <= i < lines.len() && 0 <= j < lines[i].len() ==> lines[i][j]
                                != '\n')
                        &&& r.0.deep_view() == spec_source_lists(
                            #[trigger] spec_parse_lines(lines),
                        )
                    })
            },
        },
        forall|i: int| 0 <= i < r.0.deep_view().len() ==> r.0.deep_view()[i].len() >= 1,
{
    let mut sources: Vec<Vec<String>> = Vec::new();
    if state.cut_buffer.len() > 0 {
        let mut drained: Vec<FileItem> = Vec::new();
        core::mem::swap(&mut state.cut_buffer, &mut drained);
        let ghost staged = spec_paths_of(drained@);
        proof {
            assert(state.cut_paths() =~= Seq::<Seq<char>>::empty());
            assert(staged == old(state).cut_paths());
            assert(staged.subrange(0, 0) =~= Seq::<Seq<char>>::empty());
            assert(sources.deep_view() =~= spec_source_lists(staged.subrange(0, 0)));
        }
        let mut i: usize = 0;
        while i < drained.len()
            invariant
                i <= drained.len(),
                staged == spec_paths_of(drained@),
                staged.len() == drained@.len(),
                sources.deep_view() == spec_source_lists(staged.subrange(0, i as int)),
                forall|k: int|
                    0 <= k < sources.deep_view().len() ==> sources.deep_view()[k].len() >= 1,
            decreases drained.len() - i,
        {
            let comps = path_components(drained[i].path.as_str());
            let ghost compsv = comps.deep_view();
            proof {
                assert(comps.deep_view().len() == comps@.len());
                assert(staged[i as int] == drained@[i as int].path@);
                assert(compsv == spec_path_components(staged[i as int]));
                assert(staged.subrange(0, i + 1).drop_last() =~= staged.subrange(0, i as int));
                assert(staged.subrange(0, i + 1).last() == staged[i as int]);
            }
            if comps.len() > 0 {
                let ghost sold = sources.deep_view();
                sources.push(comps);
                proof {
                    assert(sources.deep_view() =~~= sold.push(compsv));
                    assert forall|k: int|
                        0 <= k < sources.deep_view().len() implies sources.deep_view()[k].len()
                        >= 1 by {
                        if k < sold.len() {
                            assert(sources.deep_view()[k] == sold[k]);
                        } else {
                            assert(sources.deep_view()[k] == compsv);
                        }
                    }
                }
            }
            i = i + 1;
        }
        proof {
            assert(staged.subrange(0, drained@.len() as int) =~= staged);
        }
        (sources, true)
    } else {
        proof {
            assert(old(state).cut_paths().len() == 0);
        }
        match clipboard_text {
            Some(text) => {
                match parse_clipboard_text(text.as_str()) {
                    Some(paths) => {
                        let ghost parsed = paths.deep_view();
                        proof {
                            assert(parsed.subrange(0, 0) =~= Seq::<Seq<char>>::empty());
                            assert(sources.deep_view() =~= spec_source_lists(
                                parsed.subrange(0, 0),
                            ));
                        }
                        let mut i: usize = 0;
                        while i < paths.len()
                            invariant
                                i <= paths.len(),
                                parsed == paths.deep_view(),
                                parsed.len() == paths@.len(),
                                sources.deep_view() == spec_source_lists(
                                    parsed.subrange(0, i as int),
                                ),
                                forall|k: int|
                                    0 <= k < sources.deep_view().len()
                                        ==> sources.deep_view()[k].len() >= 1,
                            decreases paths.len() - i,
                        {
                            let comps = path_components(paths[i].as_str());
                            let ghost compsv = comps.deep_view();
                            proof {
                                assert(comps.deep_view().len() == comps@.len());
                                assert(parsed[i as int] == paths@[i as int]@);
                                assert(compsv == spec_path_components(parsed[i as int]));
                                assert(parsed.subrange(0, i + 1).drop_last() =~= parsed.subrange(
                                    0,
                                    i as int,
                                ));
                                assert(parsed.subrange(0, i + 1).last() == parsed[i as int]);
                            }
                            if comps.len() > 0 {
                                let ghost sold = sources.deep_view();
                                sources.push(comps);
                                proof {
                                    assert(sources.deep_view() =~~= sold.push(compsv));
                                    assert forall|k: int|
                                        0 <= k < sources.deep_view().len() implies
                                        sources.deep_view()[k].len() >= 1 by {
                                        if k < sold.len() {
                                            assert(sources.deep_view()[k] == sold[k]);
                                        } else {
                                            assert(sources.deep_view()[k] == compsv);
                                        }
                                    }
                                }
                            }
                            i = i + 1;
                        }
                        proof {
                            assert(parsed.subrange(0, paths@.len() as int) =~= parsed);
                            let lines = choose|lines: Seq<Seq<char>>|
                                {
                                    &&& spec_joined(lines) == text@
                                    &&& lines.len() >= 1
                                    &&& (forall|a: int, b: int|
                                        0 <= a < lines.len() && 0 <= b < lines[a].len()
                                            ==> lines[a][b] != '\n')
                                    &&& parsed == #[trigger] spec_parse_lines(lines)
                                };
                            assert(sources.deep_view() == spec_source_lists(
                                spec_parse_lines(lines),
                            ));
                        }
                        (sources, false)
                    },
                    None => (sources, false),
                }
            },
            None => (sources, false),
        }
    }
}

/// Whether a move from `from` to `to` can go through: the source is a
/// regular file or a symbolic link, distinct from the target, the target's
/// parent directory is present, and the target is absent — or, for a file,
/// an overwritable regular file.
pub open spec fn spec_move_ok(m: Seq<(PathV, FsNodeV)>, from: PathV, to: PathV) -> bool {
    &&& from != to
    &&& match find(m, from) {
        Some(FsNodeV::File { .. }) => crate::paste::spec_parent_ok_in(m, to) && match find(
            m,
            to,
        ) {
            Option::None => true,
            Option::Some(n) => n is File,
        },
        Some(FsNodeV::Symlink { .. }) => crate::paste::spec_parent_ok_in(m, to) && !has_path(
            m,
            to,
        ),
        _ => false,
    }
}

/// Moves one regular file or symbolic link inside the model: the write to
/// the new path and the removal of the old one in one step, the way a
/// same-filesystem rename behaves. Succeeds exactly when the move can go
/// through, and fails without a trace otherwise.
pub fn rename_or_copy_file(fs: &mut Fs, from: &Vec<String>, to: &Vec<String>) -> (r: Result<
    (),
    (),
>)
    requires
        old(fs).wf(),
        to@.len() >= 1,
    ensures
        final(fs).wf(),
        r is Ok <==> spec_move_ok(old(fs).model(), from.deep_view(), to.deep_view()),
        r is Err ==> *final(fs) == *old(fs),
        r is Ok ==> {
            &&& find(final(fs).model(), to.deep_view()) == find(old(fs).model(), from.deep_view())
            &&& find(final(fs).model(), from.deep_view()) is None
            &&& forall|q: PathV|
                q != from.deep_view() && q != to.deep_view() ==> find(final(fs).model(), q)
                    == find(old(fs).model(), q)
        },
{
    if crate::fs::path_eq(from, to) {
        return Err(());
    }
    let node = fs.lookup(from);
    match node {
        Some(FsNode::File { data, readable }) => {
            let ghost m_pre = fs.model();
            if fs.write_file(to, data, readable) {
                let removed = fs.remove_file(from);
                proof {
                    assert(removed);
                }
                Ok(())
            } else {
                Err(())
            }
        },
        Some(FsNode::Symlink { target }) => {
            if fs.create_symlink(to, target) {
                let removed = fs.remove_file(from);
                proof {
                    assert(removed);
                }
                Ok(())
            } else {
                Err(())
            }
        },
        _ => Err(()),
    }
}

/// A file dropped into a directory: moved there under its own name, unless
/// an entry of that name already exists — then nothing happens, as the drop
/// must not overwrite silently. Succeeds exactly when the directory can be
/// read, holds no entry of that name yet, and the move can go through.
pub fn move_file(fs: &mut Fs, src: &Vec<String>, dest_dir: &Vec<String>) -> (r: Result<(), ()>)
    requires
        old(fs).wf(),
        src@.len() >= 1,
    ensures
        final(fs).wf(),
        r is Ok <==> {
            let to = dest_dir.deep_view().push(src.deep_view().last());
            &&& find(old(fs).model(), dest_dir.deep_view()) == Some(FsNodeV::Dir)
            &&& !has_path(old(fs).model(), to)
            &&& spec_move_ok(old(fs).model(), src.deep_view(), to)
        },
        r is Err ==> *final(fs) == *old(fs),
        r is Ok ==> {
            let to = dest_dir.deep_view().push(src.deep_view().last());
            &&& find(final(fs).model(), to) == find(old(fs).model(), src.deep_view())
            &&& find(final(fs).model(), src.deep_view()) is None
            &&& forall|q: PathV|
                q != src.deep_view() && q != to ==> find(final(fs).model(), q) == find(
                    old(fs).model(),
                    q,
                )
        },
{
    let filename = src[src.len() - 1].clone();
    match fs.file_exists_in_dir(dest_dir, &filename) {
        Ok(false) => {
            let to = crate::fs::path_join(dest_dir, &filename);
            proof {
                assert(to.deep_view() == dest_dir.deep_view().push(src.deep_view().last())) by {
                    assert(filename@ == src.deep_view().last());
                }
                assert(to@.len() == to.deep_view().len());
            }
            rename_or_copy_file(fs, src, &to)
        },
        _ => Err(()),
    }
}

} // verus!
