//! Slash-separated paths in normal form.
//!
//! A path is either absolute or relative and holds a sequence of components.
//! Building one from text removes empty components and `.`, and lets `..`
//! cancel the component before it, so that two texts that name the same place
//! give the same path and ancestry is a matter of comparing components.

use vstd::prelude::*;

verus! {

/// What a path is: whether it starts at the root, and its components in order.
pub struct PathView {
    pub absolute: bool,
    pub parts: Seq<Seq<char>>,
}

/// The component that names the current directory.
pub open spec fn dot() -> Seq<char> {
    seq!['.']
}

/// The component that names the parent directory.
pub open spec fn dot_dot() -> Seq<char> {
    seq!['.', '.']
}

/// The pieces of `text` between separators, empty pieces included.
pub open spec fn split(text: Seq<char>) -> Seq<Seq<char>>
    decreases text.len(),
{
    if text.len() == 0 {
        seq![Seq::<char>::empty()]
    } else {
        let before = split(text.drop_last());
        if text.last() == '/' {
            before.push(Seq::<char>::empty())
        } else {
            before.drop_last().push(before.last().push(text.last()))
        }
    }
}

/// The components after one more piece is taken in: an empty piece and `.`
/// change nothing, `..` removes the last named component (at the root it is
/// dropped, in front of a relative path it is kept), any other piece is added.
pub open spec fn step(absolute: bool, parts: Seq<Seq<char>>, piece: Seq<char>) -> Seq<Seq<char>> {
    if piece.len() == 0 || piece == dot() {
        parts
    } else if piece == dot_dot() {
        if parts.len() > 0 && parts.last() != dot_dot() {
            parts.drop_last()
        } else if absolute {
            parts
        } else {
            parts.push(piece)
        }
    } else {
        parts.push(piece)
    }
}

/// The components after all of `pieces` are taken in, in order, on top of `base`.
pub open spec fn resolve(absolute: bool, base: Seq<Seq<char>>, pieces: Seq<Seq<char>>) -> Seq<
    Seq<char>,
>
    decreases pieces.len(),
{
    if pieces.len() == 0 {
        base
    } else {
        step(absolute, resolve(absolute, base, pieces.drop_last()), pieces.last())
    }
}

/// The path that `text` names.
pub open spec fn parse(text: Seq<char>) -> PathView {
    let absolute = text.len() > 0 && text[0] == '/';
    PathView { absolute, parts: resolve(absolute, Seq::empty(), split(text)) }
}

/// Components joined by single separators.
pub open spec fn joined(parts: Seq<Seq<char>>) -> Seq<char>
    decreases parts.len(),
{
    if parts.len() == 0 {
        Seq::empty()
    } else if parts.len() == 1 {
        parts[0]
    } else {
        joined(parts.drop_last()) + seq!['/'] + parts.last()
    }
}

/// The text of a path: a leading separator if it is absolute, then its
/// components; the empty relative path is written `.`.
pub open spec fn render(path: PathView) -> Seq<char> {
    if path.absolute {
        seq!['/'] + joined(path.parts)
    } else if path.parts.len() == 0 {
        dot()
    } else {
        joined(path.parts)
    }
}

/// A piece that holds no separator.
pub open spec fn plain(piece: Seq<char>) -> bool {
    forall|i: int| 0 <= i < piece.len() ==> piece[i] != '/'
}

/// Normal form of components: every one is a non-empty name without a
/// separator, none is `.`, and `..` stands only in an unbroken run at the
/// front of a relative path.
pub open spec fn normal_parts(absolute: bool, parts: Seq<Seq<char>>) -> bool {
    forall|i: int|
        0 <= i < parts.len() ==> {
            &&& (#[trigger] parts[i]).len() > 0
            &&& plain(parts[i])
            &&& parts[i] != dot()
            &&& parts[i] == dot_dot() ==> !absolute && (i == 0 || parts[i - 1] == dot_dot())
        }
}

/// A path is in normal form when its components are.
pub open spec fn is_normal(path: PathView) -> bool {
    normal_parts(path.absolute, path.parts)
}

/// The path one level up: the last component removed. The root, the empty
/// relative path and a path that ends in `..` are their own parent.
pub open spec fn parent(path: PathView) -> PathView {
    if path.parts.len() == 0 || path.parts.last() == dot_dot() {
        path
    } else {
        PathView { absolute: path.absolute, parts: path.parts.drop_last() }
    }
}

/// `other` seen from `base`: an absolute `other` stands for itself, a relative
/// one continues `base`.
pub open spec fn join(base: PathView, other: PathView) -> PathView {
    if other.absolute {
        other
    } else {
        PathView {
            absolute: base.absolute,
            parts: resolve(base.absolute, base.parts, other.parts),
        }
    }
}

/// Every component is `..`.
pub open spec fn all_dot_dot(parts: Seq<Seq<char>>) -> bool {
    forall|i: int| 0 <= i < parts.len() ==> parts[i] == dot_dot()
}

/// Whether components `a` lead to components `b`: they agree until `a` ends,
/// or they part at a `..` of `a` after which `a` holds only `..`.
pub open spec fn leads_to(a: Seq<Seq<char>>, b: Seq<Seq<char>>) -> bool
    decreases a.len(),
{
    if a.len() == 0 {
        true
    } else if b.len() > 0 && a[0] == b[0] {
        leads_to(a.drop_first(), b.drop_first())
    } else if a[0] == dot_dot() {
        all_dot_dot(a.drop_first())
    } else {
        false
    }
}

/// Whether `a` is `b` or a directory above it. Both must be absolute or both
/// relative; the empty relative path is above every relative path that does
/// not start with `..`.
pub open spec fn is_ancestor(a: PathView, b: PathView) -> bool {
    &&& a.absolute == b.absolute
    &&& if !a.absolute && a.parts.len() == 0 {
        b.parts.len() == 0 || b.parts[0] != dot_dot()
    } else {
        leads_to(a.parts, b.parts)
    }
}

/// `a` is a prefix of `b`.
pub open spec fn is_prefix(a: Seq<Seq<char>>, b: Seq<Seq<char>>) -> bool {
    a.len() <= b.len() && b.take(a.len() as int) == a
}

/// The views of a sequence of components.
pub open spec fn parts_view(parts: Seq<Vec<char>>) -> Seq<Seq<char>> {
    parts.map_values(|part: Vec<char>| part@)
}

/// A path in normal form.
#[derive(Debug)]
pub struct Path {
    absolute: bool,
    parts: Vec<Vec<char>>,
}

impl View for Path {
    type V = PathView;

    closed spec fn view(&self) -> PathView {
        PathView { absolute: self.absolute, parts: parts_view(self.parts@) }
    }
}

/// Taking a piece in keeps a normal form normal.
pub proof fn lemma_step_normal(absolute: bool, parts: Seq<Seq<char>>, piece: Seq<char>)
    requires
        normal_parts(absolute, parts),
        plain(piece),
    ensures
        normal_parts(absolute, step(absolute, parts, piece)),
{
    let next = step(absolute, parts, piece);
    assert forall|i: int| 0 <= i < next.len() implies {
        &&& (#[trigger] next[i]).len() > 0
        &&& plain(next[i])
        &&& next[i] != dot()
        &&& next[i] == dot_dot() ==> !absolute && (i == 0 || next[i - 1] == dot_dot())
    } by {
        if i < parts.len() {
            assert(next[i] == parts[i]);
            if i > 0 {
                assert(next[i - 1] == parts[i - 1]);
            }
        } else {
            assert(next[i] == piece);
            if piece == dot_dot() && i > 0 {
                assert(next[i - 1] == parts[i - 1]);
                assert(parts[i - 1] == parts.last());
            }
        }
    }
}

/// Taking pieces without a separator in keeps a normal form normal.
pub proof fn lemma_resolve_normal(absolute: bool, base: Seq<Seq<char>>, pieces: Seq<Seq<char>>)
    requires
        normal_parts(absolute, base),
        forall|i: int| 0 <= i < pieces.len() ==> plain(#[trigger] pieces[i]),
    ensures
        normal_parts(absolute, resolve(absolute, base, pieces)),
    decreases pieces.len(),
{
    if pieces.len() > 0 {
        lemma_resolve_normal(absolute, base, pieces.drop_last());
        lemma_step_normal(absolute, resolve(absolute, base, pieces.drop_last()), pieces.last());
    }
}

/// Without `..` among them, components lead to others exactly when they are
/// a prefix of them.
pub proof fn lemma_leads_to_prefix(a: Seq<Seq<char>>, b: Seq<Seq<char>>)
    requires
        forall|i: int| 0 <= i < a.len() ==> #[trigger] a[i] != dot_dot(),
    ensures
        leads_to(a, b) == is_prefix(a, b),
    decreases a.len(),
{
    if a.len() == 0 {
        assert(b.take(0) =~= a);
    } else if b.len() > 0 && a[0] == b[0] {
        let a_rest = a.drop_first();
        let b_rest = b.drop_first();
        assert forall|i: int| 0 <= i < a_rest.len() implies #[trigger] a_rest[i] != dot_dot() by {
            assert(a_rest[i] == a[i + 1]);
        }
        lemma_leads_to_prefix(a_rest, b_rest);
        if is_prefix(a_rest, b_rest) {
            assert(b.take(a.len() as int) =~= a) by {
                assert forall|i: int| 0 <= i < a.len() implies b[i] == a[i] by {
                    if i > 0 {
                        assert(b_rest.take(a_rest.len() as int)[i - 1] == a_rest[i - 1]);
                    }
                }
            }
        }
        if is_prefix(a, b) {
            assert(b_rest.take(a_rest.len() as int) =~= a_rest) by {
                assert forall|i: int| 0 <= i < a_rest.len() implies b_rest[i] == a_rest[i] by {
                    assert(b.take(a.len() as int)[i + 1] == a[i + 1]);
                }
            }
        }
    } else {
        assert(a[0] != dot_dot());
        if is_prefix(a, b) {
            assert(b.take(a.len() as int)[0] == a[0]);
        }
    }
}

/// An absolute path is above exactly the absolute paths that start with its
/// components.
pub proof fn law_ancestor_is_prefix(a: PathView, b: PathView)
    requires
        is_normal(a),
        a.absolute,
    ensures
        is_ancestor(a, b) <==> b.absolute && is_prefix(a.parts, b.parts),
{
    lemma_leads_to_prefix(a.parts, b.parts);
}

/// Every path is above itself.
pub proof fn law_ancestor_reflexive(a: PathView)
    ensures
        is_ancestor(a, a),
{
    lemma_leads_to_self(a.parts);
}

/// Components lead to themselves.
pub proof fn lemma_leads_to_self(a: Seq<Seq<char>>)
    ensures
        leads_to(a, a),
    decreases a.len(),
{
    if a.len() > 0 {
        lemma_leads_to_self(a.drop_first());
    }
}

/// The absolute directories above one path lie inside one another: of two of
/// them, the one with no more components than the other is above the other.
pub proof fn law_ancestors_nest(a: PathView, b: PathView, below: PathView)
    requires
        is_normal(a),
        is_normal(b),
        a.absolute,
        b.absolute,
        is_ancestor(a, below),
        is_ancestor(b, below),
        a.parts.len() <= b.parts.len(),
    ensures
        is_ancestor(a, b),
        a.parts.len() == b.parts.len() ==> a == b,
{
    law_ancestor_is_prefix(a, below);
    law_ancestor_is_prefix(b, below);
    law_ancestor_is_prefix(a, b);
    let n = a.parts.len() as int;
    let m = b.parts.len() as int;
    assert(b.parts.take(n) =~= a.parts) by {
        assert forall|i: int| 0 <= i < n implies b.parts[i] == a.parts[i] by {
            assert(below.parts.take(m)[i] == b.parts[i]);
            assert(below.parts.take(n)[i] == a.parts[i]);
        }
    }
    if n == m {
        assert(b.parts.take(n) =~= b.parts);
    }
}

/// A text splits into at least one piece, and no piece holds a separator.
pub proof fn lemma_split_pieces(text: Seq<char>)
    ensures
        split(text).len() >= 1,
        forall|i: int| 0 <= i < split(text).len() ==> plain(#[trigger] split(text)[i]),
    decreases text.len(),
{
    if text.len() > 0 {
        lemma_split_pieces(text.drop_last());
        let before = split(text.drop_last());
        let pieces = split(text);
        assert forall|i: int| 0 <= i < pieces.len() implies plain(#[trigger] pieces[i]) by {
            if i < pieces.len() - 1 {
                assert(pieces[i] == before[i]);
            } else if text.last() != '/' {
                assert(plain(before.last()));
                assert(pieces[i] == before.last().push(text.last()));
            }
        }
    }
}

/// Every text names a path in normal form.
pub proof fn law_parse_normal(text: Seq<char>)
    ensures
        is_normal(parse(text)),
{
    lemma_split_pieces(text);
    lemma_resolve_normal(parse(text).absolute, Seq::empty(), split(text));
}

/// A text without a separator is one piece.
pub proof fn lemma_split_piece(piece: Seq<char>)
    requires
        plain(piece),
    ensures
        split(piece) == seq![piece],
    decreases piece.len(),
{
    if piece.len() == 0 {
        assert(piece =~= Seq::<char>::empty());
        assert(split(piece) =~= seq![piece]);
    } else {
        let front = piece.drop_last();
        assert forall|i: int| 0 <= i < front.len() implies front[i] != '/' by {
            assert(front[i] == piece[i]);
        }
        lemma_split_piece(front);
        assert(piece[piece.len() - 1] != '/');
        assert(front.push(piece.last()) =~= piece);
        assert(seq![front].drop_last() =~= Seq::<Seq<char>>::empty());
        assert(seq![front].last() == front);
        assert(split(piece) =~= seq![piece]);
    }
}

/// A separator between two texts keeps their pieces apart.
pub proof fn lemma_split_concat(left: Seq<char>, right: Seq<char>)
    ensures
        split(left + seq!['/'] + right) == split(left) + split(right),
    decreases right.len(),
{
    let whole = left + seq!['/'] + right;
    if right.len() == 0 {
        assert(whole.drop_last() =~= left);
        assert(split(whole) =~= split(left) + split(right));
    } else {
        let front = right.drop_last();
        assert(whole.drop_last() =~= left + seq!['/'] + front);
        assert(whole.last() == right.last());
        lemma_split_concat(left, front);
        lemma_split_pieces(front);
        let joint = split(left) + split(front);
        assert(joint.last() == split(front).last());
        assert(joint.drop_last() =~= split(left) + split(front).drop_last());
        assert(split(whole) =~= split(left) + split(right));
    }
}

/// The text of components splits into those components.
pub proof fn lemma_split_joined(parts: Seq<Seq<char>>)
    requires
        parts.len() >= 1,
        forall|i: int| 0 <= i < parts.len() ==> plain(#[trigger] parts[i]),
    ensures
        split(joined(parts)) == parts,
    decreases parts.len(),
{
    if parts.len() == 1 {
        lemma_split_piece(parts[0]);
        assert(seq![parts[0]] =~= parts);
    } else {
        let front = parts.drop_last();
        assert forall|i: int| 0 <= i < front.len() implies plain(#[trigger] front[i]) by {
            assert(front[i] == parts[i]);
        }
        lemma_split_joined(front);
        lemma_split_concat(joined(front), parts.last());
        lemma_split_piece(parts.last());
        assert(front + seq![parts.last()] =~= parts);
    }
}

/// The text of components starts with the first character of the first one.
pub proof fn lemma_joined_first(parts: Seq<Seq<char>>)
    requires
        parts.len() >= 1,
        parts[0].len() > 0,
    ensures
        joined(parts).len() > 0,
        joined(parts)[0] == parts[0][0],
    decreases parts.len(),
{
    if parts.len() > 1 {
        let front = parts.drop_last();
        assert(front[0] == parts[0]);
        lemma_joined_first(front);
    }
}

/// Taking pieces in one list after another is taking in both lists in a row.
pub proof fn lemma_resolve_concat(
    absolute: bool,
    base: Seq<Seq<char>>,
    first: Seq<Seq<char>>,
    second: Seq<Seq<char>>,
)
    ensures
        resolve(absolute, base, first + second) == resolve(
            absolute,
            resolve(absolute, base, first),
            second,
        ),
    decreases second.len(),
{
    if second.len() == 0 {
        assert(first + second =~= first);
    } else {
        assert((first + second).drop_last() =~= first + second.drop_last());
        assert((first + second).last() == second.last());
        lemma_resolve_concat(absolute, base, first, second.drop_last());
    }
}

/// Components in normal form are taken in unchanged.
pub proof fn lemma_resolve_normal_parts(absolute: bool, parts: Seq<Seq<char>>)
    requires
        normal_parts(absolute, parts),
    ensures
        resolve(absolute, Seq::empty(), parts) == parts,
    decreases parts.len(),
{
    if parts.len() > 0 {
        let front = parts.drop_last();
        let n = parts.len() - 1;
        assert forall|i: int| 0 <= i < front.len() implies {
            &&& (#[trigger] front[i]).len() > 0
            &&& plain(front[i])
            &&& front[i] != dot()
            &&& front[i] == dot_dot() ==> !absolute && (i == 0 || front[i - 1] == dot_dot())
        } by {
            assert(front[i] == parts[i]);
            if i > 0 {
                assert(front[i - 1] == parts[i - 1]);
            }
        }
        lemma_resolve_normal_parts(absolute, front);
        assert(parts[n] == parts.last());
        if parts.last() == dot_dot() && n > 0 {
            assert(front.last() == parts[n - 1]);
        }
        assert(front.push(parts.last()) =~= parts);
    } else {
        assert(parts =~= Seq::empty());
    }
}

/// The text of a path in normal form names that path again.
pub proof fn law_text_round_trip(path: PathView)
    requires
        is_normal(path),
    ensures
        parse(render(path)) == path,
{
    let none = Seq::<char>::empty();
    let no_parts = Seq::<Seq<char>>::empty();
    let text = render(path);
    if path.parts.len() > 0 {
        assert(path.parts[0].len() > 0);
        lemma_joined_first(path.parts);
        assert(plain(path.parts[0]));
        assert(joined(path.parts)[0] != '/');
        assert forall|i: int| 0 <= i < path.parts.len() implies plain(#[trigger] path.parts[i]) by {}
        lemma_split_joined(path.parts);
    }
    lemma_resolve_normal_parts(path.absolute, path.parts);
    if path.absolute {
        assert(text[0] == '/');
        assert(text =~= none + seq!['/'] + joined(path.parts));
        lemma_split_concat(none, joined(path.parts));
        assert(split(none) =~= seq![none]);
        assert(step(true, no_parts, none) == no_parts);
        assert(seq![none].drop_last() =~= no_parts);
        assert(resolve(true, no_parts, no_parts) == no_parts);
        assert(resolve(true, no_parts, seq![none]) == no_parts);
        if path.parts.len() == 0 {
            assert(joined(path.parts) =~= none);
            assert(split(text) =~= seq![none] + seq![none]);
            lemma_resolve_concat(true, no_parts, seq![none], seq![none]);
        } else {
            assert(split(text) =~= seq![none] + path.parts);
            lemma_resolve_concat(true, no_parts, seq![none], path.parts);
        }
        assert(parse(text).parts == path.parts);
    } else if path.parts.len() == 0 {
        assert(text =~= dot());
        assert(text[0] == '.');
        assert(plain(dot()));
        lemma_split_piece(dot());
        assert(seq![dot()].drop_last() =~= no_parts);
        assert(resolve(false, no_parts, no_parts) == no_parts);
        assert(resolve(false, no_parts, seq![dot()]) == no_parts);
        assert(path.parts =~= no_parts);
    } else {
        assert(text[0] == path.parts[0][0]);
    }
}

/// `String::push` of std appends one character to the end of the string.
pub assume_specification[ String::push ](text: &mut String, c: char)
    ensures
        final(text)@ == old(text)@.push(c),
;

/// The characters of `text`, in order.
fn chars_of(text: &str) -> (out: Vec<char>)
    ensures
        out@ == text@,
{
    let mut out: Vec<char> = Vec::new();
    for c in it: text.chars()
        invariant
            out@ == text@.take(it.index() as int),
            it.seq() == text@,
    {
        out.push(c);
    }
    out
}

/// Appends the characters of `piece` to `text`.
fn push_chars(text: &mut String, piece: &Vec<char>)
    ensures
        final(text)@ == old(text)@ + piece@,
{
    let mut i: usize = 0;
    while i < piece.len()
        invariant
            i <= piece.len(),
            text@ == old(text)@ + piece@.take(i as int),
        decreases piece.len() - i,
    {
        text.push(piece[i]);
        i += 1;
    }
}

/// Whether two components hold the same characters.
fn same_chars(a: &Vec<char>, b: &Vec<char>) -> (same: bool)
    ensures
        same == (a@ == b@),
{
    if a.len() != b.len() {
        return false;
    }
    let mut i: usize = 0;
    while i < a.len()
        invariant
            i <= a.len(),
            a.len() == b.len(),
            a@.take(i as int) == b@.take(i as int),
        decreases a.len() - i,
    {
        if a[i] != b[i] {
            return false;
        }
        assert(a@.take(i + 1) == a@.take(i as int).push(a@[i as int]));
        assert(b@.take(i + 1) == b@.take(i as int).push(b@[i as int]));
        i += 1;
    }
    assert(a@ == a@.take(a.len() as int));
    assert(b@ == b@.take(b.len() as int));
    true
}

/// Whether a component is `.`.
fn is_dot(piece: &Vec<char>) -> (yes: bool)
    ensures
        yes == (piece@ == dot()),
{
    let yes = piece.len() == 1 && piece[0] == '.';
    assert(yes ==> piece@ =~= dot());
    yes
}

/// Whether a component is `..`.
fn is_dot_dot(piece: &Vec<char>) -> (yes: bool)
    ensures
        yes == (piece@ == dot_dot()),
{
    let yes = piece.len() == 2 && piece[0] == '.' && piece[1] == '.';
    assert(yes ==> piece@ =~= dot_dot());
    yes
}

/// A copy of a list of components.
fn copy_parts(parts: &Vec<Vec<char>>) -> (out: Vec<Vec<char>>)
    ensures
        parts_view(out@) == parts_view(parts@),
{
    let mut out: Vec<Vec<char>> = Vec::new();
    let mut i: usize = 0;
    while i < parts.len()
        invariant
            i <= parts.len(),
            parts_view(out@) == parts_view(parts@).take(i as int),
        decreases parts.len() - i,
    {
        let piece = parts[i].clone();
        out.push(piece);
        assert(parts_view(out@) =~= parts_view(parts@).take(i as int).push(piece@));
        assert(parts_view(parts@).take(i + 1) =~= parts_view(parts@).take(i as int).push(
            parts@[i as int]@,
        ));
        i += 1;
    }
    assert(parts_view(parts@).take(parts.len() as int) =~= parts_view(parts@));
    out
}

/// Takes one piece in, as `step` says.
fn take_piece(absolute: bool, parts: &mut Vec<Vec<char>>, piece: Vec<char>)
    ensures
        parts_view(final(parts)@) == step(absolute, parts_view(old(parts)@), piece@),
{
    let ghost before = parts_view(parts@);
    if piece.len() == 0 || is_dot(&piece) {
    } else if is_dot_dot(&piece) {
        let n = parts.len();
        if n > 0 && !is_dot_dot(&parts[n - 1]) {
            assert(before.last() == parts@[n - 1]@);
            parts.pop();
            assert(parts_view(parts@) =~= before.drop_last());
        } else if absolute {
            assert(n > 0 ==> before.last() == parts@[n - 1]@);
        } else {
            assert(n > 0 ==> before.last() == parts@[n - 1]@);
            parts.push(piece);
            assert(parts_view(parts@) =~= before.push(piece@));
        }
    } else {
        parts.push(piece);
        assert(parts_view(parts@) =~= before.push(piece@));
    }
}

impl Path {
    #[verifier::type_invariant]
    spec fn well_formed(&self) -> bool {
        normal_parts(self.absolute, parts_view(self.parts@))
    }

    /// The path that the characters name.
    fn from_chars(chars: &Vec<char>) -> (path: Path)
        ensures
            path@ == parse(chars@),
    {
        let absolute = chars.len() > 0 && chars[0] == '/';
        let mut parts: Vec<Vec<char>> = Vec::new();
        let mut current: Vec<char> = Vec::new();
        let ghost mut done: Seq<Seq<char>> = Seq::empty();
        let mut i: usize = 0;
        assert(parts_view(parts@) =~= Seq::<Seq<char>>::empty());
        assert(chars@.take(0).len() == 0);
        assert(done.push(current@) =~= split(chars@.take(0)));
        while i < chars.len()
            invariant
                i <= chars.len(),
                done.push(current@) == split(chars@.take(i as int)),
                parts_view(parts@) == resolve(absolute, Seq::empty(), done),
                normal_parts(absolute, parts_view(parts@)),
                plain(current@),
            decreases chars.len() - i,
        {
            let c = chars[i];
            let ghost prefix = chars@.take(i as int);
            let ghost longer = chars@.take(i + 1);
            assert(longer.drop_last() =~= prefix);
            assert(longer.last() == c);
            assert(split(prefix).last() == current@);
            assert(split(prefix).drop_last() =~= done);
            if c == '/' {
                proof {
                    lemma_step_normal(absolute, parts_view(parts@), current@);
                    assert(done.push(current@).drop_last() =~= done);
                }
                take_piece(absolute, &mut parts, current);
                proof {
                    done = done.push(current@);
                }
                current = Vec::new();
                assert(done.push(current@) =~= split(longer));
            } else {
                current.push(c);
                assert(done.push(current@) =~= split(longer));
            }
            i += 1;
        }
        assert(chars@.take(chars.len() as int) =~= chars@);
        proof {
            lemma_step_normal(absolute, parts_view(parts@), current@);
            assert(done.push(current@).drop_last() =~= done);
        }
        take_piece(absolute, &mut parts, current);
        Path { absolute, parts }
    }

    /// The path that `text` names, in normal form.
    pub fn new(text: &str) -> (path: Path)
        ensures
            path@ == parse(text@),
            is_normal(path@),
    {
        let chars = chars_of(text);
        let path = Path::from_chars(&chars);
        proof {
            use_type_invariant(&path);
        }
        path
    }

    /// Whether the path starts at the root.
    pub fn is_absolute(&self) -> (absolute: bool)
        ensures
            absolute == self@.absolute,
    {
        self.absolute
    }

    /// The number of components.
    pub fn depth(&self) -> (depth: usize)
        ensures
            depth == self@.parts.len(),
    {
        self.parts.len()
    }

    /// `other` seen from this path: an absolute `other` stands for itself, a
    /// relative one continues this path, with `..` taken up on the way.
    pub fn join(&self, other: &Path) -> (path: Path)
        ensures
            path@ == join(self@, other@),
            is_normal(path@),
    {
        proof {
            use_type_invariant(self);
            use_type_invariant(other);
        }
        if other.absolute {
            return other.clone();
        }
        let absolute = self.absolute;
        let mut parts = copy_parts(&self.parts);
        let ghost base = parts_view(self.parts@);
        let ghost more = parts_view(other.parts@);
        let mut i: usize = 0;
        assert(more.take(0).len() == 0);
        while i < other.parts.len()
            invariant
                i <= other.parts.len(),
                more == parts_view(other.parts@),
                normal_parts(other.absolute, more),
                parts_view(parts@) == resolve(absolute, base, more.take(i as int)),
                normal_parts(absolute, parts_view(parts@)),
            decreases other.parts.len() - i,
        {
            let piece = other.parts[i].clone();
            proof {
                assert(piece@ == more[i as int]);
                lemma_step_normal(absolute, parts_view(parts@), piece@);
                assert(more.take(i + 1).drop_last() =~= more.take(i as int));
                assert(more.take(i + 1).last() == piece@);
            }
            take_piece(absolute, &mut parts, piece);
            i += 1;
        }
        assert(more.take(other.parts.len() as int) =~= more);
        Path { absolute, parts }
    }

    /// The directory that holds this path: the last component removed. The
    /// root, the empty relative path and a path that ends in `..` are their
    /// own directory.
    pub fn dir_path(&self) -> (dir: Path)
        ensures
            dir@ == parent(self@),
            is_normal(dir@),
    {
        proof {
            use_type_invariant(self);
        }
        let n = self.parts.len();
        let mut parts = copy_parts(&self.parts);
        let ghost before = parts_view(self.parts@);
        if n > 0 && !is_dot_dot(&self.parts[n - 1]) {
            assert(before.last() == self.parts@[n - 1]@);
            parts.pop();
            assert(parts_view(parts@) =~= before.drop_last());
            assert forall|i: int| 0 <= i < before.drop_last().len() implies {
                &&& (#[trigger] before.drop_last()[i]).len() > 0
                &&& plain(before.drop_last()[i])
                &&& before.drop_last()[i] != dot()
                &&& before.drop_last()[i] == dot_dot() ==> !self.absolute && (i == 0
                    || before.drop_last()[i - 1] == dot_dot())
            } by {
                assert(before.drop_last()[i] == before[i]);
                if i > 0 {
                    assert(before.drop_last()[i - 1] == before[i - 1]);
                }
            }
        } else {
            assert(n > 0 ==> before.last() == self.parts@[n - 1]@);
        }
        Path { absolute: self.absolute, parts }
    }

    /// Whether this path is `other` or a directory above it.
    pub fn is_ancestor_of(&self, other: &Path) -> (yes: bool)
        ensures
            yes == is_ancestor(self@, other@),
    {
        if self.absolute != other.absolute {
            return false;
        }
        let ghost a = parts_view(self.parts@);
        let ghost b = parts_view(other.parts@);
        if !self.absolute && self.parts.len() == 0 {
            let yes = other.parts.len() == 0 || !is_dot_dot(&other.parts[0]);
            assert(other.parts.len() > 0 ==> b[0] == other.parts@[0]@);
            return yes;
        }
        let mut i: usize = 0;
        assert(a.skip(0) =~= a);
        assert(b.skip(0) =~= b);
        while i < self.parts.len()
            invariant
                i <= self.parts.len(),
                i <= other.parts.len(),
                self.absolute == other.absolute,
                a == parts_view(self.parts@),
                b == parts_view(other.parts@),
                leads_to(a, b) == leads_to(a.skip(i as int), b.skip(i as int)),
            decreases self.parts.len() - i,
        {
            let ghost rest_a = a.skip(i as int);
            let ghost rest_b = b.skip(i as int);
            assert(rest_a[0] == self.parts@[i as int]@);
            assert(rest_a.drop_first() =~= a.skip(i + 1));
            if i < other.parts.len() && same_chars(&self.parts[i], &other.parts[i]) {
                assert(rest_b[0] == other.parts@[i as int]@);
                assert(rest_b.drop_first() =~= b.skip(i + 1));
                i += 1;
            } else {
                assert(i < other.parts.len() ==> rest_b[0] == other.parts@[i as int]@);
                assert(!(rest_b.len() > 0 && rest_a[0] == rest_b[0]));
                if is_dot_dot(&self.parts[i]) {
                    let yes = only_dot_dot(&self.parts, i + 1);
                    assert(leads_to(rest_a, rest_b) == all_dot_dot(rest_a.drop_first()));
                    return yes;
                } else {
                    assert(!leads_to(rest_a, rest_b));
                    return false;
                }
            }
        }
        true
    }

    /// The text of the path: a leading separator if it is absolute, then the
    /// components with single separators between them; the empty relative
    /// path is written `.`.
    pub fn display(&self) -> (text: String)
        ensures
            text@ == render(self@),
    {
        let mut text = String::new();
        let ghost all = parts_view(self.parts@);
        if self.absolute {
            text.push('/');
            assert(text@ =~= seq!['/']);
        } else if self.parts.len() == 0 {
            text.push('.');
            assert(text@ =~= dot());
            return text;
        }
        let ghost front = text@;
        let mut i: usize = 0;
        assert(all.take(0).len() == 0);
        assert(text@ =~= front + joined(all.take(0)));
        while i < self.parts.len()
            invariant
                i <= self.parts.len(),
                all == parts_view(self.parts@),
                text@ == front + joined(all.take(i as int)),
            decreases self.parts.len() - i,
        {
            let ghost shorter = all.take(i as int);
            let ghost longer = all.take(i + 1);
            assert(longer.drop_last() =~= shorter);
            assert(longer.last() == self.parts@[i as int]@);
            if i > 0 {
                text.push('/');
            } else {
                assert(longer[0] == longer.last());
            }
            push_chars(&mut text, &self.parts[i]);
            assert(text@ =~= front + joined(longer));
            i += 1;
        }
        assert(all.take(self.parts.len() as int) =~= all);
        text
    }
}

/// Whether every component from index `from` on is `..`.
fn only_dot_dot(parts: &Vec<Vec<char>>, from: usize) -> (yes: bool)
    requires
        from <= parts.len(),
    ensures
        yes == all_dot_dot(parts_view(parts@).skip(from as int)),
{
    let ghost rest = parts_view(parts@).skip(from as int);
    let mut i: usize = from;
    while i < parts.len()
        invariant
            from <= i <= parts.len(),
            rest == parts_view(parts@).skip(from as int),
            forall|j: int| 0 <= j < i - from ==> rest[j] == dot_dot(),
        decreases parts.len() - i,
    {
        assert(rest[i - from] == parts@[i as int]@);
        if !is_dot_dot(&parts[i]) {
            return false;
        }
        i += 1;
    }
    true
}

impl Clone for Path {
    /// A path with the same components.
    fn clone(&self) -> (copy: Path)
        ensures
            copy@ == self@,
    {
        proof {
            use_type_invariant(self);
        }
        Path { absolute: self.absolute, parts: copy_parts(&self.parts) }
    }
}

impl PartialEq for Path {
    /// Two paths are equal when both are absolute or both are relative and
    /// they hold the same components.
    fn eq(&self, other: &Path) -> (same: bool) {
        let ghost a = parts_view(self.parts@);
        let ghost b = parts_view(other.parts@);
        if self.absolute != other.absolute || self.parts.len() != other.parts.len() {
            assert(self.absolute == other.absolute ==> a.len() != b.len());
            assert(self@ != other@);
            return false;
        }
        let mut i: usize = 0;
        while i < self.parts.len()
            invariant
                i <= self.parts.len(),
                self.parts.len() == other.parts.len(),
                a == parts_view(self.parts@),
                b == parts_view(other.parts@),
                forall|j: int| 0 <= j < i ==> a[j] == b[j],
            decreases self.parts.len() - i,
        {
            if !same_chars(&self.parts[i], &other.parts[i]) {
                assert(a[i as int] != b[i as int]);
                assert(self@ != other@);
                return false;
            }
            i += 1;
        }
        assert(a =~= b);
        assert(self@ == other@);
        true
    }
}

impl Eq for Path {

}

impl vstd::std_specs::cmp::PartialEqSpecImpl for Path {
    open spec fn obeys_eq_spec() -> bool {
        true
    }

    open spec fn eq_spec(&self, other: &Path) -> bool {
        self@ == other@
    }
}

} // verus!
