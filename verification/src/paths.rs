//! Paths as the names that are joined one after the other.

use vstd::prelude::*;
use vstd::utf8::encode_utf8;
use crate::order::{lex_antisymmetric, lex_le, lex_total, lex_transitive, Ranked};
use crate::text::chars_of;

verus! {

/// A path: the names that make it up, joined in order, each as its encoded
/// bytes. The first ones may come from a path given from outside.
#[derive(Debug, Clone, PartialEq, Eq)]
pub struct FilePath {
    parts: Vec<Vec<u8>>,
}

/// A copy of `bytes`.
pub fn copy_bytes(bytes: &[u8]) -> (r: Vec<u8>)
    ensures
        r@ == bytes@,
{
    let mut out: Vec<u8> = Vec::new();
    let mut i: usize = 0;
    while i < bytes.len()
        invariant
            i <= bytes@.len(),
            out@ == bytes@.take(i as int),
        decreases bytes@.len() - i,
    {
        out.push(bytes[i]);
        i = i + 1;
    }
    assert(bytes@.take(bytes@.len() as int) =~= bytes@);
    out
}

/// The bytes of every name.
pub open spec fn names_of(parts: Seq<Vec<u8>>) -> Seq<Seq<u8>> {
    parts.map_values(|p: Vec<u8>| p@)
}

/// The names of every path.
pub open spec fn path_texts(paths: Seq<FilePath>) -> Seq<Seq<Seq<u8>>> {
    paths.map_values(|p: FilePath| p@)
}

impl View for FilePath {
    type V = Seq<Seq<u8>>;

    closed spec fn view(&self) -> Seq<Seq<u8>> {
        names_of(self.parts@)
    }
}

/// `path` with the name `name` joined to it.
pub open spec fn joined(path: Seq<Seq<u8>>, name: Seq<char>) -> Seq<Seq<u8>> {
    path.push(encode_utf8(name))
}

impl FilePath {
    /// The path of the given names.
    pub fn from_parts(parts: Vec<Vec<u8>>) -> (r: FilePath)
        ensures
            r@ == names_of(parts@),
    {
        FilePath { parts }
    }

    /// The empty path, to which names are joined.
    pub fn empty() -> (r: FilePath)
        ensures
            r@ == Seq::<Seq<u8>>::empty(),
    {
        let r = FilePath { parts: Vec::new() };
        assert(r@ =~= Seq::<Seq<u8>>::empty());
        r
    }

    /// The names that make up the path.
    pub fn parts(&self) -> (r: &Vec<Vec<u8>>)
        ensures
            names_of(r@) == self@,
    {
        &self.parts
    }

    /// A copy of the path.
    pub fn copied(&self) -> (r: FilePath)
        ensures
            r@ == self@,
    {
        let mut parts: Vec<Vec<u8>> = Vec::new();
        let mut i: usize = 0;
        while i < self.parts.len()
            invariant
                i <= self.parts@.len(),
                names_of(parts@) == names_of(self.parts@).take(i as int),
            decreases self.parts@.len() - i,
        {
            let ghost before = parts@;
            parts.push(copy_bytes(self.parts[i].as_slice()));
            assert(names_of(parts@) =~= names_of(before).push(self.parts@[i as int]@));
            assert(names_of(self.parts@).take(i + 1) =~= names_of(self.parts@).take(i as int).push(
                self.parts@[i as int]@,
            ));
            i = i + 1;
        }
        assert(names_of(self.parts@).take(self.parts@.len() as int) =~= names_of(self.parts@));
        FilePath { parts }
    }

    /// The path with a name, given as its encoded bytes, joined to it.
    pub fn child(&self, name: &[u8]) -> (r: FilePath)
        ensures
            r@ == self@.push(name@),
    {
        let mut r = self.copied();
        let ghost before = r.parts@;
        r.parts.push(copy_bytes(name));
        assert(names_of(r.parts@) =~= names_of(before).push(name@));
        r
    }

    /// The path with a name joined to it.
    pub fn join(&self, name: &str) -> (r: FilePath)
        ensures
            r@ == joined(self@, name@),
    {
        self.child(name.as_bytes())
    }

    /// The path with every name of `rest` joined to it.
    pub fn join_path(&self, rest: &FilePath) -> (r: FilePath)
        ensures
            r@ == self@ + rest@,
    {
        let mut r = self.copied();
        let mut i: usize = 0;
        assert(r@ =~= self@ + rest@.take(0));
        while i < rest.parts.len()
            invariant
                i <= rest.parts@.len(),
                r@ == self@ + rest@.take(i as int),
            decreases rest.parts@.len() - i,
        {
            let ghost before = r.parts@;
            r.parts.push(copy_bytes(rest.parts[i].as_slice()));
            assert(names_of(r.parts@) =~= names_of(before).push(rest.parts@[i as int]@));
            assert(rest@.take(i + 1) =~= rest@.take(i as int).push(rest.parts@[i as int]@));
            assert(r@ =~= self@ + rest@.take(i + 1));
            i = i + 1;
        }
        assert(rest@.take(rest.parts@.len() as int) =~= rest@);
        r
    }
}

/// The pieces of `text` between slashes.
pub open spec fn pieces(text: Seq<char>) -> Seq<Seq<char>>
    decreases text.len(),
{
    if text.len() == 0 {
        seq![Seq::<char>::empty()]
    } else {
        let before = pieces(text.drop_last());
        if text.last() == '/' {
            before.push(Seq::empty())
        } else {
            before.drop_last().push(before.last().push(text.last()))
        }
    }
}

/// `path` with the pieces of `text` joined to it, one by one.
pub open spec fn joined_pieces(path: Seq<Seq<u8>>, text: Seq<char>) -> Seq<Seq<u8>> {
    path + pieces(text).map_values(|p: Seq<char>| encode_utf8(p))
}

proof fn lemma_pieces_some(text: Seq<char>)
    ensures
        pieces(text).len() >= 1,
    decreases text.len(),
{
    if text.len() > 0 {
        lemma_pieces_some(text.drop_last());
    }
}

impl FilePath {
    /// The path with the pieces of `text` between slashes joined to it.
    pub fn join_pieces(&self, text: &str) -> (r: FilePath)
        ensures
            r@ == joined_pieces(self@, text@),
    {
        let cs = chars_of(text);
        let mut r = self.copied();
        let mut piece = String::new();
        let mut i: usize = 0;
        let ghost enc = |p: Seq<char>| encode_utf8(p);
        assert(r@ =~= self@ + pieces(text@.take(0)).drop_last().map_values(enc));
        while i < cs.len()
            invariant
                cs@ == text@,
                i <= cs@.len(),
                enc == (|p: Seq<char>| encode_utf8(p)),
                piece@ == pieces(text@.take(i as int)).last(),
                r@ == self@ + pieces(text@.take(i as int)).drop_last().map_values(enc),
            decreases cs@.len() - i,
        {
            let ghost done = pieces(text@.take(i as int));
            proof {
                lemma_pieces_some(text@.take(i as int));
                assert(text@.take(i + 1).drop_last() =~= text@.take(i as int));
            }
            if cs[i] == '/' {
                r = r.join(piece.as_str());
                piece = String::new();
                proof {
                    assert(done.push(Seq::empty()).drop_last() =~= done);
                    assert(done.map_values(enc) =~= done.drop_last().map_values(enc).push(
                        encode_utf8(done.last()),
                    ));
                    assert(r@ =~= self@ + done.map_values(enc));
                }
            } else {
                piece.push(cs[i]);
                assert(done.drop_last().push(done.last().push(cs[i as int])).drop_last()
                    =~= done.drop_last());
            }
            i = i + 1;
        }
        proof {
            assert(text@.take(text@.len() as int) =~= text@);
            lemma_pieces_some(text@);
            let all = pieces(text@);
            assert(all.map_values(enc) =~= all.drop_last().map_values(enc).push(
                encode_utf8(all.last()),
            ));
        }
        r.join(piece.as_str())
    }
}

proof fn lemma_parts_rank(parts: Vec<Vec<u8>>)
    ensures
        parts.rank() == names_of(parts@),
{
    assert forall|i: int| 0 <= i < parts@.len() implies (#[trigger] parts@[i]).rank()
        == parts@[i]@ by {
        assert(parts@[i].rank() =~= parts@[i]@);
    }
    assert(parts.rank() =~= names_of(parts@));
}

/// Paths are put in order name by name, and names byte by byte.
impl Ranked for FilePath {
    type K = Seq<Seq<u8>>;

    open spec fn rank(&self) -> Seq<Seq<u8>> {
        self@
    }

    open spec fn le(a: Seq<Seq<u8>>, b: Seq<Seq<u8>>) -> bool {
        lex_le::<Vec<u8>>(a, b)
    }

    proof fn le_total(a: Seq<Seq<u8>>, b: Seq<Seq<u8>>) {
        lex_total::<Vec<u8>>(a, b);
    }

    proof fn le_transitive(a: Seq<Seq<u8>>, b: Seq<Seq<u8>>, c: Seq<Seq<u8>>) {
        lex_transitive::<Vec<u8>>(a, b, c);
    }

    proof fn le_antisymmetric(a: Seq<Seq<u8>>, b: Seq<Seq<u8>>) {
        lex_antisymmetric::<Vec<u8>>(a, b);
    }

    fn precedes(&self, other: &Self) -> (r: bool) {
        proof {
            lemma_parts_rank(self.parts);
            lemma_parts_rank(other.parts);
        }
        self.parts.precedes(&other.parts)
    }
}

impl FilePath {
    /// Whether both paths are made up of the same names.
    pub fn is_same(&self, other: &FilePath) -> (r: bool)
        ensures
            r == (self@ == other@),
    {
        proof {
            FilePath::le_total(self@, other@);
        }
        let forth = self.precedes(other);
        let back = other.precedes(self);
        proof {
            if forth && back {
                FilePath::le_antisymmetric(self@, other@);
            }
        }
        forth && back
    }
}

proof fn lemma_pieces_add(a: Seq<char>, b: Seq<char>)
    ensures
        pieces(a + seq!['/'] + b) == pieces(a) + pieces(b),
    decreases b.len(),
{
    let all = a + seq!['/'] + b;
    if b.len() == 0 {
        assert(all.drop_last() =~= a);
        assert(pieces(a).push(Seq::empty()) =~= pieces(a) + pieces(b));
    } else {
        let front = b.drop_last();
        lemma_pieces_add(a, front);
        lemma_pieces_some(front);
        assert(all.drop_last() =~= a + seq!['/'] + front);
        assert(all.last() == b.last());
        let before = pieces(a) + pieces(front);
        assert(before.last() == pieces(front).last());
        if b.last() == '/' {
            assert(before.push(Seq::empty()) =~= pieces(a) + pieces(b));
        } else {
            assert(before.drop_last().push(before.last().push(b.last())) =~= pieces(a) + pieces(b));
        }
    }
}

proof fn lemma_one_piece(text: Seq<char>)
    requires
        !text.contains('/'),
    ensures
        pieces(text) == seq![text],
    decreases text.len(),
{
    if text.len() == 0 {
        assert(text =~= Seq::<char>::empty());
    } else {
        let front = text.drop_last();
        assert(!front.contains('/')) by {
            if front.contains('/') {
                let i = choose|i: int| 0 <= i < front.len() && front[i] == '/';
                assert(text[i] == '/');
            }
        }
        lemma_one_piece(front);
        assert(text[text.len() - 1] != '/');
        assert(front.push(text.last()) =~= text);
        assert(seq![front].drop_last().push(front.push(text.last())) =~= seq![text]);
    }
}

/// A text without a slash is one name, joined as it is; one with a slash is
/// what stands before it and then what stands behind it.
pub proof fn law_slashes_part_names(path: Seq<Seq<u8>>, a: Seq<char>, b: Seq<char>)
    ensures
        joined_pieces(path, a + seq!['/'] + b) == joined_pieces(joined_pieces(path, a), b),
        !a.contains('/') ==> joined_pieces(path, a) == path.push(encode_utf8(a)),
        joined(path, a) == path.push(encode_utf8(a)),
{
    let enc = |p: Seq<char>| encode_utf8(p);
    lemma_pieces_add(a, b);
    assert((pieces(a) + pieces(b)).map_values(enc) =~= pieces(a).map_values(enc) + pieces(
        b,
    ).map_values(enc));
    assert(joined_pieces(path, a + seq!['/'] + b) =~= joined_pieces(joined_pieces(path, a), b));
    if !a.contains('/') {
        lemma_one_piece(a);
        assert(seq![a].map_values(enc) =~= seq![encode_utf8(a)]);
        assert(joined_pieces(path, a) =~= path.push(encode_utf8(a)));
    }
}

} // verus!
