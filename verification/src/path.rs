//! Unix paths as byte strings: components, file names and joining.
use vstd::prelude::*;
use vstd::slice::slice_to_vec;

use crate::pieces::{byte_views, split, split_bytes};

verus! {

pub const SLASH: u8 = 0x2f;

pub const DOT: u8 = 0x2e;

/// One step of a path.
pub enum Component {
    /// The slash that an absolute path starts with.
    RootDir,
    /// A dot that a relative path starts with.
    CurDir,
    /// Two dots.
    ParentDir,
    /// Any other name.
    Normal(Vec<u8>),
}

/// What a component is, with its name as a sequence.
pub enum Step {
    RootDir,
    CurDir,
    ParentDir,
    Normal(Seq<u8>),
}

impl View for Component {
    type V = Step;

    open spec fn view(&self) -> Step {
        match self {
            Component::RootDir => Step::RootDir,
            Component::CurDir => Step::CurDir,
            Component::ParentDir => Step::ParentDir,
            Component::Normal(name) => Step::Normal(name@),
        }
    }
}

/// The views of a sequence of components.
pub open spec fn steps_of(v: Seq<Component>) -> Seq<Step> {
    v.map_values(|c: Component| c@)
}

pub open spec fn is_absolute(path: Seq<u8>) -> bool {
    path.len() > 0 && path[0] == SLASH
}

/// The step, if any, that one piece between slashes stands for. An empty piece is none, and a
/// single dot is one only where the path starts with it.
pub open spec fn step(piece: Seq<u8>, first: bool) -> Option<Step> {
    if piece.len() == 0 {
        None
    } else if piece == seq![DOT] {
        if first {
            Some(Step::CurDir)
        } else {
            None
        }
    } else if piece == seq![DOT, DOT] {
        Some(Step::ParentDir)
    } else {
        Some(Step::Normal(piece))
    }
}

/// The steps that the pieces between slashes stand for.
pub open spec fn piece_steps(pieces: Seq<Seq<u8>>) -> Seq<Step>
    decreases pieces.len(),
{
    if pieces.len() == 0 {
        Seq::empty()
    } else {
        let before = piece_steps(pieces.drop_last());
        match step(pieces.last(), pieces.len() == 1) {
            Some(s) => before.push(s),
            None => before,
        }
    }
}

/// The steps of a path, as `std::path::Path::components` gives them on Unix.
pub open spec fn steps(path: Seq<u8>) -> Seq<Step> {
    let root = if is_absolute(path) {
        seq![Step::RootDir]
    } else {
        Seq::empty()
    };
    root + piece_steps(split(path, SLASH))
}

/// The last step of a path where that is a name.
pub open spec fn file_name_spec(path: Seq<u8>) -> Option<Seq<u8>> {
    let all = steps(path);
    if all.len() > 0 {
        match all.last() {
            Step::Normal(name) => Some(name),
            _ => None,
        }
    } else {
        None
    }
}

/// `rest` read from the directory `base`.
pub open spec fn joined(base: Seq<u8>, rest: Seq<u8>) -> Seq<u8> {
    if is_absolute(rest) {
        rest
    } else if base.len() > 0 && base.last() != SLASH {
        base.push(SLASH) + rest
    } else {
        base + rest
    }
}

/// The components of a path.
pub fn components(path: &[u8]) -> (r: Vec<Component>)
    ensures
        steps_of(r@) == steps(path@),
{
    let pieces = split_bytes(path, SLASH);
    let ghost views = split(path@, SLASH);
    let mut r: Vec<Component> = Vec::new();
    let ghost root = steps_of(r@);
    if path.len() > 0 && path[0] == SLASH {
        r.push(Component::RootDir);
    }
    proof {
        root = steps_of(r@);
        assert(root =~= if is_absolute(path@) {
            seq![Step::RootDir]
        } else {
            Seq::empty()
        });
        assert(views.take(0) =~= Seq::empty());
        assert(root + piece_steps(views.take(0)) =~= root);
    }
    for i in 0..pieces.len()
        invariant
            views == byte_views(pieces@),
            steps_of(r@) == root + piece_steps(views.take(i as int)),
    {
        let piece = &pieces[i];
        let ghost done = steps_of(r@);
        let ghost before = piece_steps(views.take(i as int));
        assert(views[i as int] == piece@);
        assert(views.take(i + 1).drop_last() =~= views.take(i as int));
        let n = piece.len();
        if n == 0 {
        } else if n == 1 && piece[0] == DOT {
            assert(piece@ =~= seq![DOT]);
            if i == 0 {
                r.push(Component::CurDir);
                assert(steps_of(r@) =~= done.push(Step::CurDir));
                assert(root + before.push(Step::CurDir) =~= (root + before).push(Step::CurDir));
            }
        } else if n == 2 && piece[0] == DOT && piece[1] == DOT {
            assert(piece@ =~= seq![DOT, DOT]);
            r.push(Component::ParentDir);
            assert(steps_of(r@) =~= done.push(Step::ParentDir));
            assert(root + before.push(Step::ParentDir) =~= (root + before).push(Step::ParentDir));
        } else {
            r.push(Component::Normal(slice_to_vec(piece.as_slice())));
            let s = Ghost(Step::Normal(piece@));
            assert(steps_of(r@) =~= done.push(s@));
            assert(root + before.push(s@) =~= (root + before).push(s@));
        }
    }
    assert(views.take(views.len() as int) =~= views);
    r
}

/// The file name that a path ends in.
pub fn file_name(path: &[u8]) -> (r: Option<Vec<u8>>)
    ensures
        match r {
            Some(name) => file_name_spec(path@) == Some(name@),
            None => file_name_spec(path@) is None,
        },
{
    let mut all = components(path);
    let ghost views = steps_of(all@);
    match all.pop() {
        Some(Component::Normal(name)) => {
            assert(views.last() == Step::Normal(name@));
            Some(name)
        },
        Some(other) => {
            assert(views.last() == other@);
            None
        },
        None => None,
    }
}

/// The path that `rest` is when read from the directory `base`.
pub fn join_path(base: &[u8], rest: &[u8]) -> (r: Vec<u8>)
    ensures
        r@ == joined(base@, rest@),
{
    if rest.len() > 0 && rest[0] == SLASH {
        return slice_to_vec(rest);
    }
    let mut r = slice_to_vec(base);
    if base.len() > 0 && base[base.len() - 1] != SLASH {
        r.push(SLASH);
    }
    let mut tail = slice_to_vec(rest);
    r.append(&mut tail);
    r
}

/// A name that is a step of its own.
pub open spec fn is_plain_name(name: Seq<u8>) -> bool {
    &&& name.len() > 0
    &&& !name.contains(SLASH)
    &&& name != seq![DOT]
    &&& name != seq![DOT, DOT]
}

/// The file name of a path that was joined from a directory and a name is that name.
pub proof fn law_file_name_of_joined(base: Seq<u8>, name: Seq<u8>)
    requires
        is_plain_name(name),
    ensures
        file_name_spec(joined(base, name)) == Some(name),
{
    let path = joined(base, name);
    let pieces = split(path, SLASH);
    assert(!is_absolute(name)) by {
        assert(name.contains(name[0]));
    }
    if base.len() == 0 {
        assert(path =~= name);
        crate::pieces::lemma_split_plain(name, SLASH);
    } else if base.last() == SLASH {
        crate::pieces::lemma_split_append(base.drop_last(), name, SLASH);
        assert(base.drop_last().push(SLASH) =~= base);
    } else {
        crate::pieces::lemma_split_append(base, name, SLASH);
    }
    assert(pieces.last() == name);
    assert(steps(path).last() == Step::Normal(name));
}

/// A path that is read from a directory stands below it, with one slash in between, unless it is
/// absolute.
pub proof fn law_joined(base: Seq<u8>, rest: Seq<u8>)
    ensures
        rest.len() > 0 && rest[0] == SLASH ==> joined(base, rest) == rest,
        rest.len() == 0 || rest[0] != SLASH ==> {
            &&& base.len() == 0 ==> joined(base, rest) == rest
            &&& base.len() > 0 && base.last() == SLASH ==> joined(base, rest) == base + rest
            &&& base.len() > 0 && base.last() != SLASH ==> joined(base, rest) == base + seq![SLASH]
                + rest
        },
{
    assert(base.push(SLASH) =~= base + seq![SLASH]);
    if base.len() == 0 {
        assert(base + rest =~= rest);
    }
}

/// A path is read name by name: after a slash, an empty name and a single dot are no step, two
/// dots lead to the parent, and any other name is a step of its own.
pub proof fn law_steps_name_by_name(path: Seq<u8>, name: Seq<u8>)
    requires
        path.len() > 0,
        !name.contains(SLASH),
    ensures
        steps(path + seq![SLASH] + name) == if name.len() == 0 || name == seq![DOT] {
            steps(path)
        } else if name == seq![DOT, DOT] {
            steps(path).push(Step::ParentDir)
        } else {
            steps(path).push(Step::Normal(name))
        },
{
    let whole = path + seq![SLASH] + name;
    let pieces = split(path, SLASH);
    crate::pieces::lemma_split_append(path, name, SLASH);
    crate::pieces::law_split_pieces(path, SLASH);
    assert(whole =~= path.push(SLASH) + name);
    assert(pieces.push(name).drop_last() =~= pieces);
    assert(whole[0] == path[0]);
    assert(steps(whole) =~= if name.len() == 0 || name == seq![DOT] {
        steps(path)
    } else if name == seq![DOT, DOT] {
        steps(path).push(Step::ParentDir)
    } else {
        steps(path).push(Step::Normal(name))
    });
}

/// A path that starts with a name starts at the current directory, which a single dot spells out;
/// one that starts with a slash starts at the root.
pub proof fn law_first_steps(name: Seq<u8>)
    requires
        !name.contains(SLASH),
    ensures
        steps(name) == if name.len() == 0 {
            Seq::empty()
        } else if name == seq![DOT] {
            seq![Step::CurDir]
        } else if name == seq![DOT, DOT] {
            seq![Step::ParentDir]
        } else {
            seq![Step::Normal(name)]
        },
        steps(seq![SLASH] + name) == if name.len() == 0 || name == seq![DOT] {
            seq![Step::RootDir]
        } else if name == seq![DOT, DOT] {
            seq![Step::RootDir, Step::ParentDir]
        } else {
            seq![Step::RootDir, Step::Normal(name)]
        },
{
    let empty = Seq::<u8>::empty();
    let rooted = seq![SLASH] + name;
    crate::pieces::lemma_split_plain(name, SLASH);
    assert(!is_absolute(name)) by {
        if name.len() > 0 {
            assert(name.contains(name[0]));
        }
    }
    assert(seq![name].drop_last() =~= Seq::empty());
    assert(piece_steps(Seq::empty()) =~= Seq::empty());
    assert(steps(name) =~= if name.len() == 0 {
        Seq::empty()
    } else if name == seq![DOT] {
        seq![Step::CurDir]
    } else if name == seq![DOT, DOT] {
        seq![Step::ParentDir]
    } else {
        seq![Step::Normal(name)]
    });
    crate::pieces::lemma_split_append(empty, name, SLASH);
    assert(rooted =~= empty.push(SLASH) + name);
    assert(split(rooted, SLASH) =~= seq![empty, name]);
    assert(seq![empty, name].drop_last() =~= seq![empty]);
    assert(seq![empty].drop_last() =~= Seq::empty());
    assert(piece_steps(seq![empty]) =~= Seq::empty());
    assert(steps(rooted) =~= if name.len() == 0 || name == seq![DOT] {
        seq![Step::RootDir]
    } else if name == seq![DOT, DOT] {
        seq![Step::RootDir, Step::ParentDir]
    } else {
        seq![Step::RootDir, Step::Normal(name)]
    });
}

/// The file name of a path is its last name: slashes and single dots after it do not count, and
/// two dots leave no name.
pub proof fn law_file_name(path: Seq<u8>, name: Seq<u8>)
    requires
        path.len() > 0,
    ensures
        file_name_spec(path + seq![SLASH]) == file_name_spec(path),
        file_name_spec(path + seq![SLASH, DOT]) == file_name_spec(path),
        file_name_spec(path + seq![SLASH, DOT, DOT]) is None,
        is_plain_name(name) ==> file_name_spec(path + seq![SLASH] + name) == Some(name),
        is_plain_name(name) ==> file_name_spec(name) == Some(name),
        file_name_spec(Seq::empty()) is None,
        file_name_spec(seq![SLASH]) is None,
        file_name_spec(seq![DOT]) is None,
        file_name_spec(seq![DOT, DOT]) is None,
        is_plain_name(name) <==> name.len() > 0 && !name.contains(SLASH) && name != seq![DOT]
            && name != seq![DOT, DOT],
{
    let empty = Seq::<u8>::empty();
    let dot = seq![DOT];
    let dots = seq![DOT, DOT];
    assert(dot[0] != SLASH && dots[0] != SLASH && dots[1] != SLASH);
    assert(dot.len() == 1 && dots.len() == 2);
    law_steps_name_by_name(path, empty);
    law_steps_name_by_name(path, dot);
    law_steps_name_by_name(path, dots);
    assert(path + seq![SLASH] + empty =~= path + seq![SLASH]);
    assert(path + seq![SLASH] + dot =~= path + seq![SLASH, DOT]);
    assert(path + seq![SLASH] + dots =~= path + seq![SLASH, DOT, DOT]);
    law_first_steps(empty);
    law_first_steps(dot);
    law_first_steps(dots);
    assert(seq![SLASH] + empty =~= seq![SLASH]);
    if is_plain_name(name) {
        law_steps_name_by_name(path, name);
        law_first_steps(name);
    }
}

} // verus!
