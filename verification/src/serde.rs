use crate::ordmap::{MapKey, OrdMap};
use vstd::prelude::*;

verus! {

/// Items that carry their own key.
pub trait Id: Sized {
    type Id: MapKey;

    /// The key of `self`.
    spec fn spec_id(&self) -> <Self::Id as View>::V;

    fn id(&self) -> (r: &Self::Id)
        ensures
            r@ == self.spec_id(),
    ;
}

/// Items keyed by their own id; an item with the same id as an earlier one replaces it.
pub struct IdMap<T: Id>(pub OrdMap<T::Id, T>);

impl<T: Id> IdMap<T> {
    /// Every item is stored under its id.
    pub open spec fn keyed(self) -> bool {
        forall|k: <T::Id as View>::V| #[trigger] self.0@.contains_key(k) ==> self.0@[k].spec_id() == k
    }

    pub fn new() -> (r: Self)
        ensures
            r.0@ == Map::<<T::Id as View>::V, T>::empty(),
            r.keyed(),
    {
        IdMap(OrdMap::new())
    }

    pub fn is_empty(&self) -> (r: bool)
        ensures
            r == (self.0@ == Map::<<T::Id as View>::V, T>::empty()),
    {
        self.0.is_empty()
    }

    /// Inserts `item` under its id, returning the item it replaces.
    pub fn insert(&mut self, item: T) -> (r: Option<T>)
        requires
            old(self).keyed(),
        ensures
            final(self).keyed(),
            final(self).0@ == old(self).0@.insert(item.spec_id(), item),
            r == (if old(self).0@.contains_key(item.spec_id()) {
                Some(old(self).0@[item.spec_id()])
            } else {
                None
            }),
    {
        let key = item.id().clone_key();
        self.0.insert(key, item)
    }

    /// The items keyed by their ids, a later item replacing an earlier one with the same id.
    pub fn from_items(items: Vec<T>) -> (r: Self)
        ensures
            r.keyed(),
            r.0@ == items_map(items@),
    {
        let mut r = IdMap::new();
        let mut items = items;
        let ghost all = items@;
        let n = items.len();
        let mut i: usize = 0;
        proof {
            assert(all.take(0) =~= Seq::<T>::empty());
            assert(r.0@ =~= items_map(all.take(0)));
            assert(items@ =~= all.skip(0));
        }
        while i < n
            invariant
                n == all.len(),
                i <= n,
                items@ == all.skip(i as int),
                r.keyed(),
                r.0@ == items_map(all.take(i as int)),
            decreases n - i,
        {
            let item = items.remove(0);
            proof {
                assert(item == all[i as int]);
                assert(items@ =~= all.skip(i + 1));
                assert(all.take(i + 1).drop_last() =~= all.take(i as int));
            }
            r.insert(item);
            i = i + 1;
        }
        proof {
            assert(all.take(n as int) =~= all);
        }
        r
    }
}

/// Items keyed by their ids, a later item replacing an earlier one with the same id.
pub open spec fn items_map<T: Id>(s: Seq<T>) -> Map<<T::Id as View>::V, T>
    decreases s.len(),
{
    if s.len() == 0 {
        Map::empty()
    } else {
        items_map(s.drop_last()).insert(s.last().spec_id(), s.last())
    }
}

/// Why a path was refused.
#[derive(Debug, Clone, Copy, PartialEq, Eq)]
pub struct RelativePathBufError {
    _priv: (),
}

impl RelativePathBufError {
    /// The error's message.
    pub fn to_text(&self) -> (r: String)
        ensures
            r@ == seq!['p', 'a', 't', 'h', ' ', 'i', 's', ' ', 'n', 'o', 't', ' ', 'r', 'e', 'l', 'a', 't', 'i', 'v', 'e'],
    {
        proof {
            reveal_strlit("path is not relative");
            assert("path is not relative"@ == seq![
                'p', 'a', 't', 'h', ' ', 'i', 's', ' ', 'n', 'o', 't', ' ', 'r', 'e', 'l', 'a', 't', 'i', 'v', 'e',
            ]);
        }
        "path is not relative".to_string()
    }
}

/// A path that is relative.
#[derive(Debug, Clone, PartialEq, Eq)]
pub struct RelativePathBuf(String);

impl View for RelativePathBuf {
    type V = Seq<char>;

    closed spec fn view(&self) -> Seq<char> {
        self.0@
    }
}

/// Whether `std::path::Path::is_relative` holds of a path, by the platform's path rules.
pub uninterp spec fn path_relative(path: Seq<char>) -> bool;

/// `std::path::Path::is_relative` on `path`: whether the path depends on the current directory
/// (on Unix: does not start with `/`); the result is named by `path_relative`.
#[verifier::external_body]
fn path_is_relative(path: &str) -> (r: bool)
    ensures
        r == path_relative(path@),
{
    std::path::Path::new(path).is_relative()
}

impl RelativePathBuf {
    /// The path, if `is_relative` says that it is relative.
    pub fn checked(path: String, is_relative: bool) -> (r: Result<Self, RelativePathBufError>)
        ensures
            is_relative ==> (r matches Ok(p) && p@ == path@),
            !is_relative ==> r is Err,
    {
        if is_relative {
            Ok(RelativePathBuf(path))
        } else {
            Err(RelativePathBufError { _priv: () })
        }
    }

    /// The path, if it is relative by the platform's path rules.
    pub fn new(path: String) -> (r: Result<Self, RelativePathBufError>)
        ensures
            path_relative(path@) ==> (r matches Ok(p) && p@ == path@),
            !path_relative(path@) ==> r is Err,
    {
        let is_relative = path_is_relative(path.as_str());
        Self::checked(path, is_relative)
    }

    pub fn as_str(&self) -> (r: &str)
        ensures
            r@ == self@,
    {
        self.0.as_str()
    }
}

} // verus!
