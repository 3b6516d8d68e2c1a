//! A minimal WGSL assembler: `//!include <name>` resolution plus injection of
//! the floating-point precision alias.
//!
//! WGSL has no preprocessor and no module system, so the shaders are stitched
//! together here.  Two rules:
//!
//!   * `//!include foo` splices in the module `foo`, recursively, and each
//!     module is spliced at most once per translation unit.
//!   * A precision prologue defining `alias flt = ...` is prepended to every
//!     simulation module.  All physics shaders spell their types `flt`, which
//!     is what makes the width a single-point decision on the shader side.

use vstd::prelude::*;

use crate::text;

verus! {

/// Floating point width used by the *simulation* shaders.  Rendering is always
/// single precision.
#[derive(Clone, Copy, Debug, PartialEq, Eq, Structural)]
pub enum Precision {
    Single,
    /// Not reachable today: WGSL has no 64-bit float type.  Kept as an explicit
    /// marker of where the decision lives.
    Double,
}

impl Default for Precision {
    fn default() -> (r: Precision)
        ensures
            r == Precision::Single,
    {
        Precision::Single
    }
}

impl Precision {
    /// The line that fixes the width.  Double precision is not available
    /// through WGSL.
    fn prologue(self) -> (r: &'static str)
        requires
            self == Precision::Single,
        ensures
            r@ == "alias flt = f32;\n"@,
    {
        "alias flt = f32;\n"
    }
}

/// A shader module.
#[derive(Debug)]
pub struct ShaderModule {
    pub name: String,
    pub source: String,
}

/// A module by value: its name, and the lines of its source.
pub struct ModuleView {
    pub name: Seq<char>,
    pub lines: Seq<Seq<char>>,
}

impl View for ShaderModule {
    type V = ModuleView;

    open spec fn view(&self) -> ModuleView {
        ModuleView { name: self.name@, lines: text::lines(self.source@) }
    }
}

/// Modules by value.
pub open spec fn table(modules: Seq<ShaderModule>) -> Seq<ModuleView> {
    modules.map_values(|m: ShaderModule| m@)
}

/// Where the first module of a name stands; the length of the table if there is
/// none.
pub open spec fn module_index(t: Seq<ModuleView>, name: Seq<char>) -> int
    decreases t.len(),
{
    if t.len() == 0 || t[0].name == name {
        0
    } else {
        1 + module_index(t.skip(1), name)
    }
}

/// What a line asks to be spliced in, if it is a directive.
pub open spec fn directive(line: Seq<char>) -> Option<Seq<char>> {
    let bare = text::trimmed(line);
    let mark = "//!include"@;
    if bare.len() >= mark.len() && bare.take(mark.len() as int) == mark {
        Some(text::trimmed(bare.skip(mark.len() as int)))
    } else {
        None
    }
}

/// What splicing yields.
pub struct Spliced {
    /// The lines kept, each as its module and its place there.
    pub pieces: Seq<(int, int)>,
    /// Which modules have been spliced in, or are being.
    pub seen: Seq<bool>,
    /// Whether every module asked for is in the table.
    pub complete: bool,
}

/// How many modules have not been spliced in.
pub open spec fn unseen(seen: Seq<bool>) -> nat
    decreases seen.len(),
{
    if seen.len() == 0 {
        0
    } else if seen.last() {
        unseen(seen.drop_last())
    } else {
        unseen(seen.drop_last()) + 1
    }
}

/// What either of two records has seen.
pub open spec fn either(a: Seq<bool>, b: Seq<bool>) -> Seq<bool> {
    Seq::new(a.len(), |i: int| a[i] || b[i])
}

pub proof fn lemma_unseen_either(a: Seq<bool>, b: Seq<bool>)
    ensures
        unseen(either(a, b)) <= unseen(a),
    decreases a.len(),
{
    if a.len() > 0 {
        lemma_unseen_either(a.drop_last(), b);
        assert(either(a, b).drop_last() =~= either(a.drop_last(), b));
    }
}

pub proof fn lemma_unseen_mark(seen: Seq<bool>, d: int)
    requires
        0 <= d < seen.len(),
        !seen[d],
    ensures
        unseen(seen.update(d, true)) < unseen(seen),
    decreases seen.len(),
{
    let after = seen.update(d, true);
    if d < seen.len() - 1 {
        lemma_unseen_mark(seen.drop_last(), d);
        assert(after.drop_last() =~= seen.drop_last().update(d, true));
    } else {
        assert(after.drop_last() =~= seen.drop_last());
    }
}

/// Splice module `m` from its line `i` on, where `seen` are in already.
pub open spec fn splice_from(t: Seq<ModuleView>, m: int, i: int, seen: Seq<bool>) -> Spliced
    decreases unseen(seen), t[m].lines.len() - i,
{
    if i < 0 || i >= t[m].lines.len() {
        Spliced { pieces: Seq::empty(), seen, complete: true }
    } else {
        match directive(t[m].lines[i]) {
            None => {
                let rest = splice_from(t, m, i + 1, seen);
                Spliced { pieces: seq![(m, i)] + rest.pieces, ..rest }
            },
            Some(dep) => {
                let d = module_index(t, dep);
                if d < 0 || d >= t.len() || d >= seen.len() {
                    let rest = splice_from(t, m, i + 1, seen);
                    Spliced { complete: false, ..rest }
                } else if seen[d] {
                    splice_from(t, m, i + 1, seen)
                } else {
                    proof {
                        lemma_unseen_mark(seen, d);
                    }
                    let marked = seen.update(d, true);
                    let inner = splice_from(t, d, 0, marked);
                    proof {
                        lemma_unseen_either(marked, inner.seen);
                    }
                    let rest = splice_from(t, m, i + 1, either(marked, inner.seen));
                    Spliced {
                        pieces: inner.pieces + rest.pieces,
                        seen: rest.seen,
                        complete: inner.complete && rest.complete,
                    }
                }
            },
        }
    }
}

/// Splice a whole translation unit.
pub open spec fn spliced(t: Seq<ModuleView>, entry: Seq<char>) -> Spliced {
    let m = module_index(t, entry);
    splice_from(t, m, 0, Seq::new(t.len(), |k: int| k == m))
}

/// The text of some lines.
pub open spec fn rendered(t: Seq<ModuleView>, pieces: Seq<(int, int)>) -> Seq<char>
    decreases pieces.len(),
{
    if pieces.len() == 0 {
        Seq::empty()
    } else {
        rendered(t, pieces.drop_last()) + t[pieces.last().0].lines[pieces.last().1].push('\n')
    }
}

/// Whether an entry module and everything it asks for is in the table.
pub open spec fn resolves(t: Seq<ModuleView>, entry: Seq<char>) -> bool {
    0 <= module_index(t, entry) < t.len() && spliced(t, entry).complete
}

proof fn lemma_rendered_concat(t: Seq<ModuleView>, a: Seq<(int, int)>, b: Seq<(int, int)>)
    ensures
        rendered(t, a + b) == rendered(t, a) + rendered(t, b),
    decreases b.len(),
{
    if b.len() > 0 {
        assert((a + b).drop_last() =~= a + b.drop_last());
        assert((a + b).last() == b.last());
        lemma_rendered_concat(t, a, b.drop_last());
        assert(rendered(t, a + b) =~= rendered(t, a) + rendered(t, b));
    } else {
        assert(a + b =~= a);
        assert(rendered(t, a) + rendered(t, b) =~= rendered(t, a));
    }
}

proof fn lemma_module_index(t: Seq<ModuleView>, name: Seq<char>, at: int)
    requires
        0 <= at <= t.len(),
        forall|j: int| 0 <= j < at ==> (#[trigger] t[j]).name != name,
        at < t.len() ==> t[at].name == name,
    ensures
        module_index(t, name) == at,
    decreases at,
{
    if at > 0 {
        let rest = t.skip(1);
        assert(t[0].name != name);
        assert forall|j: int| 0 <= j < at - 1 implies (#[trigger] rest[j]).name != name by {
            assert(rest[j] == t[j + 1]);
        }
        lemma_module_index(rest, name, at - 1);
    }
}

/// What holds of splicing module `m`, itself seen, from its line `i` on.
pub open spec fn well_spliced(
    t: Seq<ModuleView>,
    m: int,
    i: int,
    seen: Seq<bool>,
    r: Spliced,
) -> bool {
    &&& r.seen.len() == seen.len()
    &&& forall|a: int| 0 <= a < seen.len() && #[trigger] seen[a] ==> r.seen[a]
    &&& forall|k: int|
        0 <= k < r.pieces.len() ==> {
            let (a, b) = #[trigger] r.pieces[k];
            &&& 0 <= a < t.len()
            &&& 0 <= b < t[a].lines.len()
            &&& directive(t[a].lines[b]) is None
            &&& r.seen[a]
            &&& a == m && b >= i || !seen[a]
        }
    &&& forall|k: int, l: int|
        0 <= k < l < r.pieces.len() ==> #[trigger] r.pieces[k] != #[trigger] r.pieces[l]
    &&& forall|b: int|
        i <= b < t[m].lines.len() && directive(#[trigger] t[m].lines[b]) is None
            ==> r.pieces.contains((m, b))
    &&& forall|a: int, b: int|
        0 <= a < seen.len() && !seen[a] && r.seen[a] && 0 <= b < t[a].lines.len() && directive(
            #[trigger] t[a].lines[b],
        ) is None ==> r.pieces.contains((a, b))
}

proof fn lemma_well_spliced(t: Seq<ModuleView>, m: int, i: int, seen: Seq<bool>)
    requires
        0 <= m < t.len(),
        0 <= i,
        seen.len() == t.len(),
        seen[m],
    ensures
        well_spliced(t, m, i, seen, splice_from(t, m, i, seen)),
    decreases unseen(seen), t[m].lines.len() - i,
{
    let r = splice_from(t, m, i, seen);
    if i < t[m].lines.len() {
        match directive(t[m].lines[i]) {
            None => {
                lemma_well_spliced(t, m, i + 1, seen);
                let rest = splice_from(t, m, i + 1, seen);
                lemma_kept_line(t, m, i, seen, rest);
            },
            Some(dep) => {
                let d = module_index(t, dep);
                if d < 0 || d >= t.len() || d >= seen.len() {
                    lemma_well_spliced(t, m, i + 1, seen);
                } else if seen[d] {
                    lemma_well_spliced(t, m, i + 1, seen);
                } else {
                    lemma_unseen_mark(seen, d);
                    let marked = seen.update(d, true);
                    lemma_well_spliced(t, d, 0, marked);
                    let inner = splice_from(t, d, 0, marked);
                    lemma_unseen_either(marked, inner.seen);
                    let after = either(marked, inner.seen);
                    assert(marked[m]);
                    assert(after =~= inner.seen);
                    lemma_well_spliced(t, m, i + 1, after);
                    let rest = splice_from(t, m, i + 1, after);
                    lemma_joined(t, m, i, d, seen, inner, rest);
                }
            },
        }
    }
}

proof fn lemma_kept_line(t: Seq<ModuleView>, m: int, i: int, seen: Seq<bool>, rest: Spliced)
    requires
        0 <= m < t.len(),
        0 <= i < t[m].lines.len(),
        seen.len() == t.len(),
        seen[m],
        directive(t[m].lines[i]) is None,
        well_spliced(t, m, i + 1, seen, rest),
    ensures
        well_spliced(
            t,
            m,
            i,
            seen,
            (Spliced { pieces: seq![(m, i)] + rest.pieces, ..rest }),
        ),
{
    let r = Spliced { pieces: seq![(m, i)] + rest.pieces, ..rest };
    assert forall|k: int| 0 <= k < r.pieces.len() implies {
        let (a, b) = #[trigger] r.pieces[k];
        &&& 0 <= a < t.len()
        &&& 0 <= b < t[a].lines.len()
        &&& directive(t[a].lines[b]) is None
        &&& r.seen[a]
        &&& a == m && b >= i || !seen[a]
    } by {
        if k > 0 {
            assert(r.pieces[k] == rest.pieces[k - 1]);
        }
    }
    assert forall|k: int, l: int| 0 <= k < l < r.pieces.len() implies #[trigger] r.pieces[k]
        != #[trigger] r.pieces[l] by {
        assert(r.pieces[l] == rest.pieces[l - 1]);
        if k > 0 {
            assert(r.pieces[k] == rest.pieces[k - 1]);
        }
    }
    assert forall|b: int|
        i <= b < t[m].lines.len() && directive(
            #[trigger] t[m].lines[b],
        ) is None implies r.pieces.contains((m, b)) by {
        if b == i {
            assert(r.pieces[0] == (m, b));
        } else {
            assert(rest.pieces.contains((m, b)));
            let k = choose|k: int| 0 <= k < rest.pieces.len() && rest.pieces[k] == (m, b);
            assert(r.pieces[k + 1] == (m, b));
        }
    }
    assert forall|a: int, b: int|
        0 <= a < seen.len() && !seen[a] && r.seen[a] && 0 <= b < t[a].lines.len() && directive(
            #[trigger] t[a].lines[b],
        ) is None implies r.pieces.contains((a, b)) by {
        assert(rest.pieces.contains((a, b)));
        let k = choose|k: int| 0 <= k < rest.pieces.len() && rest.pieces[k] == (a, b);
        assert(r.pieces[k + 1] == (a, b));
    }
}

proof fn lemma_joined(
    t: Seq<ModuleView>,
    m: int,
    i: int,
    d: int,
    seen: Seq<bool>,
    inner: Spliced,
    rest: Spliced,
)
    requires
        0 <= m < t.len(),
        0 <= d < t.len(),
        0 <= i < t[m].lines.len(),
        seen.len() == t.len(),
        seen[m],
        !seen[d],
        directive(t[m].lines[i]) is Some,
        well_spliced(t, d, 0, seen.update(d, true), inner),
        well_spliced(t, m, i + 1, inner.seen, rest),
    ensures
        well_spliced(
            t,
            m,
            i,
            seen,
            (Spliced {
                pieces: inner.pieces + rest.pieces,
                seen: rest.seen,
                complete: inner.complete && rest.complete,
            }),
        ),
{
    let marked = seen.update(d, true);
    let n = inner.pieces.len() as int;
    let r = Spliced {
        pieces: inner.pieces + rest.pieces,
        seen: rest.seen,
        complete: inner.complete && rest.complete,
    };
    assert forall|a: int| 0 <= a < seen.len() && #[trigger] seen[a] implies r.seen[a] by {
        assert(marked[a]);
        assert(inner.seen[a]);
    }
    assert(marked[d]);
    assert(inner.seen[d]);
    assert(marked[m]);
    assert(inner.seen[m]);
    assert forall|k: int| 0 <= k < r.pieces.len() implies {
        let (a, b) = #[trigger] r.pieces[k];
        &&& 0 <= a < t.len()
        &&& 0 <= b < t[a].lines.len()
        &&& directive(t[a].lines[b]) is None
        &&& r.seen[a]
        &&& a == m && b >= i || !seen[a]
    } by {
        if k < n {
            assert(r.pieces[k] == inner.pieces[k]);
            let (a, b) = inner.pieces[k];
            assert(inner.seen[a]);
            if a != d {
                assert(!marked[a]);
            }
        } else {
            assert(r.pieces[k] == rest.pieces[k - n]);
            let (a, b) = rest.pieces[k - n];
            if !(a == m && b >= i + 1) {
                assert(!inner.seen[a]);
                if seen[a] {
                    assert(marked[a]);
                }
            }
        }
    }
    assert forall|k: int, l: int| 0 <= k < l < r.pieces.len() implies #[trigger] r.pieces[k]
        != #[trigger] r.pieces[l] by {
        if l < n {
            assert(r.pieces[k] == inner.pieces[k] && r.pieces[l] == inner.pieces[l]);
        } else if k >= n {
            assert(r.pieces[k] == rest.pieces[k - n] && r.pieces[l] == rest.pieces[l - n]);
        } else {
            assert(r.pieces[k] == inner.pieces[k] && r.pieces[l] == rest.pieces[l - n]);
            let (a, b) = inner.pieces[k];
            let (e, f) = rest.pieces[l - n];
            // The inner line belongs to a module that was not in before, and
            // is in now.
            assert(inner.seen[a] && a != m);
        }
    }
    assert forall|b: int|
        i <= b < t[m].lines.len() && directive(
            #[trigger] t[m].lines[b],
        ) is None implies r.pieces.contains((m, b)) by {
        assert(rest.pieces.contains((m, b)));
        let k = choose|k: int| 0 <= k < rest.pieces.len() && rest.pieces[k] == (m, b);
        assert(r.pieces[k + n] == (m, b));
    }
    assert forall|a: int, b: int|
        0 <= a < seen.len() && !seen[a] && r.seen[a] && 0 <= b < t[a].lines.len() && directive(
            #[trigger] t[a].lines[b],
        ) is None implies r.pieces.contains((a, b)) by {
        if inner.seen[a] {
            assert(inner.pieces.contains((a, b)));
            let k = choose|k: int| 0 <= k < inner.pieces.len() && inner.pieces[k] == (a, b);
            assert(r.pieces[k] == (a, b));
        } else {
            assert(rest.pieces.contains((a, b)));
            let k = choose|k: int| 0 <= k < rest.pieces.len() && rest.pieces[k] == (a, b);
            assert(r.pieces[k + n] == (a, b));
        }
    }
}

/// A translation unit holds no line twice, so no module twice, and no
/// directive; it holds every other line of every module that was asked for.
pub proof fn law_modules_are_spliced_once(t: Seq<ModuleView>, entry: Seq<char>)
    requires
        0 <= module_index(t, entry) < t.len(),
    ensures
        ({
            let r = spliced(t, entry);
            &&& r.seen.len() == t.len()
            &&& r.seen[module_index(t, entry)]
            &&& r.pieces.no_duplicates()
            &&& forall|k: int|
                0 <= k < r.pieces.len() ==> {
                    let (a, b) = #[trigger] r.pieces[k];
                    &&& 0 <= a < t.len()
                    &&& 0 <= b < t[a].lines.len()
                    &&& r.seen[a]
                    &&& directive(t[a].lines[b]) is None
                }
            &&& forall|a: int, b: int|
                0 <= a < t.len() && r.seen[a] && 0 <= b < t[a].lines.len() && directive(
                    #[trigger] t[a].lines[b],
                ) is None ==> r.pieces.contains((a, b))
        }),
{
    let m = module_index(t, entry);
    let seen = Seq::new(t.len(), |k: int| k == m);
    lemma_well_spliced(t, m, 0, seen);
    let r = spliced(t, entry);
    assert(seen[m]);
    assert forall|i: int, j: int|
        0 <= i < r.pieces.len() && 0 <= j < r.pieces.len() && i != j implies r.pieces[i]
        != r.pieces[j] by {
        if i < j {
            assert(r.pieces[i] != r.pieces[j]);
        } else {
            assert(r.pieces[j] != r.pieces[i]);
        }
    }
    assert forall|a: int, b: int|
        0 <= a < t.len() && r.seen[a] && 0 <= b < t[a].lines.len() && directive(
            #[trigger] t[a].lines[b],
        ) is None implies r.pieces.contains((a, b)) by {
        if a != m {
            assert(!seen[a]);
        }
    }
}

/// Whatever a spliced module asks for is spliced in too.
pub proof fn law_dependencies_are_spliced(
    t: Seq<ModuleView>,
    m: int,
    i: int,
    seen: Seq<bool>,
    at: int,
)
    requires
        0 <= m < t.len(),
        0 <= i <= at < t[m].lines.len(),
        seen.len() == t.len(),
        seen[m],
        directive(t[m].lines[at]) is Some,
        0 <= module_index(t, directive(t[m].lines[at])->0) < t.len(),
    ensures
        splice_from(t, m, i, seen).seen[module_index(t, directive(t[m].lines[at])->0)],
    decreases at - i,
{
    match directive(t[m].lines[i]) {
        None => {
            law_dependencies_are_spliced(t, m, i + 1, seen, at);
        },
        Some(dep) => {
            let d = module_index(t, dep);
            let next = if d < 0 || d >= t.len() || seen[d] {
                seen
            } else {
                let marked = seen.update(d, true);
                let inner = splice_from(t, d, 0, marked);
                lemma_well_spliced(t, d, 0, marked);
                assert(marked[m] && marked[d]);
                assert(either(marked, inner.seen) =~= inner.seen);
                either(marked, inner.seen)
            };
            lemma_well_spliced(t, m, i + 1, next);
            if i < at {
                law_dependencies_are_spliced(t, m, i + 1, next, at);
            } else {
                assert(next[d]);
            }
        },
    }
}

// ---------------------------------------------------------------------------
//  Assembly
// ---------------------------------------------------------------------------

/// Where the first module of a name stands.
fn source_of(modules: &Vec<ShaderModule>, name: &Vec<char>) -> (r: usize)
    ensures
        r <= modules@.len(),
        r == module_index(table(modules@), name@),
{
    let mut i: usize = 0;
    while i < modules.len()
        invariant
            i <= modules@.len(),
            forall|j: int| 0 <= j < i ==> (#[trigger] table(modules@)[j]).name != name@,
        decreases modules.len() - i,
    {
        let here: Vec<char> = text::chars_of(modules[i].name.as_str());
        if text::same_text(&here, name) {
            proof {
                lemma_module_index(table(modules@), name@, i as int);
            }
            return i;
        }
        i = i + 1;
    }
    proof {
        lemma_module_index(table(modules@), name@, i as int);
    }
    i
}

/// What a line asks to be spliced in, if it is a directive.
fn directive_of(line: &Vec<char>) -> (r: Option<Vec<char>>)
    ensures
        match r {
            Some(dep) => directive(line@) == Some(dep@),
            None => directive(line@) is None,
        },
{
    let bare: Vec<char> = text::trim(line);
    let mark: Vec<char> = text::chars_of("//!include");
    if bare.len() < mark.len() {
        return None;
    }
    let head: Vec<char> = text::slice_of(&bare, 0, mark.len());
    assert(head@ =~= bare@.take(mark@.len() as int));
    if !text::same_text(&head, &mark) {
        return None;
    }
    let tail: Vec<char> = text::slice_of(&bare, mark.len(), bare.len());
    assert(tail@ =~= bare@.skip(mark@.len() as int));
    Some(text::trim(&tail))
}

/// Append module `m` to `out`, with everything it asks for that is not in yet.
/// Says whether every module asked for is there.
fn splice(
    modules: &Vec<ShaderModule>,
    m: usize,
    seen: &mut Vec<bool>,
    out: &mut Vec<char>,
) -> (r: bool)
    requires
        m < modules@.len(),
        old(seen)@.len() == modules@.len(),
        old(seen)@[m as int],
    ensures
        ({
            let t = table(modules@);
            let done = splice_from(t, m as int, 0, old(seen)@);
            &&& final(seen)@ == done.seen
            &&& final(seen)@.len() == modules@.len()
            &&& final(out)@ == old(out)@ + rendered(t, done.pieces)
            &&& r == done.complete
        }),
    decreases unseen(old(seen)@),
{
    let ghost t = table(modules@);
    let ghost whole = splice_from(t, m as int, 0, seen@);
    let ghost first = unseen(seen@);
    let lines: Vec<Vec<char>> = text::split_lines(&text::chars_of(modules[m].source.as_str()));
    assert(t[m as int].lines == text::texts(lines@));
    let mut complete: bool = true;
    let mut i: usize = 0;
    let ghost mut kept = Seq::<(int, int)>::empty();
    assert(kept + whole.pieces =~= whole.pieces);
    assert(out@ =~= old(out)@ + rendered(t, kept));
    while i < lines.len()
        invariant
            i <= lines.len(),
            m < modules@.len(),
            t == table(modules@),
            t[m as int].lines == text::texts(lines@),
            seen@.len() == modules@.len(),
            seen@[m as int],
            unseen(seen@) <= first,
            first == unseen(old(seen)@),
            out@ == old(out)@ + rendered(t, kept),
            ({
                let rest = splice_from(t, m as int, i as int, seen@);
                &&& whole.pieces == kept + rest.pieces
                &&& whole.seen == rest.seen
                &&& whole.complete == (complete && rest.complete)
            }),
        decreases lines.len() - i,
    {
        let ghost rest = splice_from(t, m as int, i as int, seen@);
        let ghost before = kept;
        assert(t[m as int].lines[i as int] == lines@[i as int]@);
        match directive_of(&lines[i]) {
            Some(dep) => {
                let d: usize = source_of(modules, &dep);
                if d >= modules.len() {
                    complete = false;
                } else if !seen[d] {
                    let ghost old_seen = seen@;
                    proof {
                        lemma_unseen_mark(seen@, d as int);
                    }
                    seen.set(d, true);
                    let ghost marked = seen@;
                    let ghost inner = splice_from(t, d as int, 0, marked);
                    proof {
                        lemma_well_spliced(t, d as int, 0, marked);
                        lemma_unseen_either(marked, inner.seen);
                        assert(marked[m as int]);
                        assert(either(marked, inner.seen) =~= inner.seen);
                    }
                    let ok: bool = splice(modules, d, seen, out);
                    complete = complete && ok;
                    proof {
                        kept = kept + inner.pieces;
                        lemma_rendered_concat(t, before, inner.pieces);
                        let after = splice_from(t, m as int, i + 1, seen@);
                        assert(before + (inner.pieces + after.pieces) =~= kept + after.pieces);
                        assert(out@ =~= old(out)@ + rendered(t, kept));
                    }
                }
            },
            None => {
                text::extend(out, &lines[i]);
                out.push('\n');
                proof {
                    let piece = (m as int, i as int);
                    kept = kept.push(piece);
                    assert(kept.drop_last() =~= before);
                    let after = splice_from(t, m as int, i + 1, seen@);
                    assert(before + (seq![piece] + after.pieces) =~= kept + after.pieces);
                    assert(out@ =~= old(out)@ + rendered(t, kept));
                }
            },
        }
        i = i + 1;
    }
    assert(kept + Seq::<(int, int)>::empty() =~= kept);
    complete
}

/// Append a whole translation unit to `out`; says whether every module asked
/// for is there.
fn assemble(modules: &Vec<ShaderModule>, entry_module: &str, out: &mut Vec<char>) -> (r: bool)
    ensures
        r == resolves(table(modules@), entry_module@),
        r ==> final(out)@ == old(out)@ + rendered(
            table(modules@),
            spliced(table(modules@), entry_module@).pieces,
        ),
{
    let name: Vec<char> = text::chars_of(entry_module);
    let m: usize = source_of(modules, &name);
    if m >= modules.len() {
        return false;
    }
    let mut seen: Vec<bool> = Vec::new();
    let mut i: usize = 0;
    while i < modules.len()
        invariant
            i <= modules@.len(),
            seen@ == Seq::new(i as nat, |k: int| k == m),
        decreases modules.len() - i,
    {
        seen.push(i == m);
        i = i + 1;
        assert(seen@ =~= Seq::new(i as nat, |k: int| k == m));
    }
    splice(modules, m, &mut seen, out)
}

/// Whether a module can be assembled: it and every module it asks for, directly
/// or not, is in the table.
pub fn assembles(entry_module: &str, modules: &Vec<ShaderModule>) -> (r: bool)
    ensures
        r == resolves(table(modules@), entry_module@),
{
    let mut out: Vec<char> = Vec::new();
    assemble(modules, entry_module, &mut out)
}

/// Assemble a simulation shader, with directives resolved and the precision
/// alias in place.
pub fn build(entry_module: &str, precision: Precision, modules: &Vec<ShaderModule>) -> (r: String)
    requires
        precision == Precision::Single,
        resolves(table(modules@), entry_module@),
    ensures
        r@ == "alias flt = f32;\n"@ + rendered(
            table(modules@),
            spliced(table(modules@), entry_module@).pieces,
        ),
{
    let mut out: Vec<char> = text::chars_of(precision.prologue());
    let _ = assemble(modules, entry_module, &mut out);
    text::string_of(&out)
}

/// Assemble a rendering shader.  These are unconditionally single precision,
/// but they may still use directives.
pub fn build_render(entry_module: &str, modules: &Vec<ShaderModule>) -> (r: String)
    requires
        resolves(table(modules@), entry_module@),
    ensures
        r@ == rendered(table(modules@), spliced(table(modules@), entry_module@).pieces),
{
    let mut out: Vec<char> = Vec::new();
    let _ = assemble(modules, entry_module, &mut out);
    assert(Seq::<char>::empty() + rendered(
        table(modules@),
        spliced(table(modules@), entry_module@).pieces,
    ) =~= out@);
    text::string_of(&out)
}

} // verus!
