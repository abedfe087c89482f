//! Dictionary container paths: where the descriptor, the contents, the
//! media and the keystore of an installed dictionary live, and how a
//! dictionary's name is recognized in the system directory.

use vstd::prelude::*;
use vstd::string::{StrSliceExecFns, StringExecFns};

verus! {

/// The directory prefix every installed dictionary's name carries.
pub open spec fn dict_prefix() -> Seq<char> {
    "jp.monokakido.Dictionaries."@
}

/// Extracts the dictionary name from a directory entry: the part after
/// the fixed prefix, or nothing when the entry is not a dictionary.
pub fn parse_dict_name(fname: &str) -> (r: Option<String>)
    ensures
        r is Some <==> fname@.len() >= dict_prefix().len() && fname@.subrange(
            0,
            dict_prefix().len() as int,
        ) == dict_prefix(),
        r matches Some(s) ==> s@ == fname@.skip(dict_prefix().len() as int),
{
    let prefix: &str = "jp.monokakido.Dictionaries.";
    proof {
        reveal_strlit("jp.monokakido.Dictionaries.");
    }
    let n: usize = fname.unicode_len();
    if n < 27 {
        proof {
            assert(fname@.len() < dict_prefix().len());
        }
        return None;
    }
    let mut i: usize = 0;
    while i < 27
        invariant
            i <= 27,
            n == fname@.len(),
            n >= 27,
            prefix@ == dict_prefix(),
            prefix@.len() == 27,
            forall|k: int| 0 <= k < i ==> fname@[k] == prefix@[k],
        decreases 27 - i,
    {
        if fname.get_char(i) != prefix.get_char(i) {
            proof {
                assert(fname@.subrange(0, 27)[i as int] != dict_prefix()[i as int]);
            }
            return None;
        }
        i = i + 1;
    }
    let rest = fname.substring_char(27, n);
    proof {
        assert(fname@.subrange(0, 27) =~= dict_prefix());
        assert(rest@ =~= fname@.skip(27));
    }
    Some(rest.to_owned())
}

/// The filesystem places of one dictionary: its root directory, its name,
/// and the contents directory its descriptor names.
pub struct Paths {
    pub base_path: String,
    pub name: String,
    pub contents_dir: String,
}

impl Paths {
    /// Gathers the three components, as read from the descriptor.
    pub fn new(base_path: String, name: String, contents_dir: String) -> (r: Paths)
        ensures
            r.base_path@ == base_path@,
            r.name@ == name@,
            r.contents_dir@ == contents_dir@,
    {
        Paths { base_path, name, contents_dir }
    }

    /// The dictionary's name.
    pub fn name(&self) -> (r: &str)
        ensures
            r@ == self.name@,
    {
        self.name.as_str()
    }

    /// The fixed system directory every installed dictionary lives under.
    pub fn std_list_path() -> (r: String)
        ensures
            r@ == "/Library/Application Support/AppStoreContent/jp.monokakido.Dictionaries/Products/"@,
    {
        String::from_str(
            "/Library/Application Support/AppStoreContent/jp.monokakido.Dictionaries/Products/",
        )
    }

    /// The standard root directory of the named dictionary.
    pub fn std_dict_path(name: &str) -> (r: String)
        ensures
            r@ == "/Library/Application Support/AppStoreContent/jp.monokakido.Dictionaries/Products/"@
                + dict_prefix() + name@,
    {
        let mut path = Self::std_list_path();
        path.append("jp.monokakido.Dictionaries.");
        proof {
            assert("jp.monokakido.Dictionaries."@ == dict_prefix());
        }
        path.append(name);
        path
    }

    /// The descriptor file `<path>/Contents/<name>.json`.
    pub fn json_path(path: &str, name: &str) -> (r: String)
        ensures
            r@ == path@ + "/Contents/"@ + name@ + ".json"@,
    {
        let mut pb = String::from_str(path);
        pb.append("/Contents/");
        pb.append(name);
        pb.append(".json");
        pb
    }

    /// The contents directory `<base>/Contents/<dir>`.
    pub fn contents_path(&self) -> (r: String)
        ensures
            r@ == self.base_path@ + "/Contents/"@ + self.contents_dir@,
    {
        let mut pb = String::from_str(self.base_path.as_str());
        pb.append("/Contents/");
        pb.append(self.contents_dir.as_str());
        pb
    }

    /// The key directory `<base>/Contents/<dir>/key`.
    pub fn key_path(&self) -> (r: String)
        ensures
            r@ == self.base_path@ + "/Contents/"@ + self.contents_dir@ + "/key"@,
    {
        let mut pb = self.contents_path();
        pb.append("/key");
        pb
    }

    /// The keystore file `<base>/Contents/<dir>/key/headword.keystore`.
    pub fn headword_key_path(&self) -> (r: String)
        ensures
            r@ == self.base_path@ + "/Contents/"@ + self.contents_dir@ + "/key"@
                + "/headword.keystore"@,
    {
        let mut pb = self.key_path();
        pb.append("/headword.keystore");
        pb
    }
}

/// Position of the last dot in the sequence, or a negative value when no
/// dot occurs.
pub open spec fn last_dot(s: Seq<char>) -> int
    decreases s.len(),
{
    if s.len() == 0 {
        -1
    } else if s.last() == '.' {
        s.len() - 1
    } else {
        last_dot(s.drop_last())
    }
}

/// What `last_dot` points at: a dot with no dot after it, or nothing.
pub proof fn lemma_last_dot(s: Seq<char>)
    ensures
        -1 <= last_dot(s) < s.len(),
        last_dot(s) >= 0 ==> s[last_dot(s)] == '.',
        forall|k: int| last_dot(s) < k < s.len() ==> s[k] != '.',
    decreases s.len(),
{
    if s.len() > 0 && s.last() != '.' {
        lemma_last_dot(s.drop_last());
        assert forall|k: int| last_dot(s) < k < s.len() implies s[k] != '.' by {
            if k < s.len() - 1 {
                assert(s[k] == s.drop_last()[k]);
            }
        }
    }
}

/// Derives a dictionary's name from its directory name: everything after
/// the last dot, since the layout names a dictionary's directory by a
/// dotted vendor prefix followed by the name.  A directory name without
/// a dot carries no dictionary name.
pub fn dict_name_of_dir(dir: &str) -> (r: Option<String>)
    ensures
        r is Some <==> last_dot(dir@) >= 0,
        r matches Some(s) ==> s@ == dir@.skip(last_dot(dir@) + 1),
{
    proof {
        lemma_last_dot(dir@);
    }
    let n: usize = dir.unicode_len();
    let mut i: usize = n;
    while i > 0
        invariant
            i <= n,
            n == dir@.len(),
            forall|k: int| i <= k < n ==> dir@[k] != '.',
        decreases i,
    {
        if dir.get_char(i - 1) == '.' {
            proof {
                lemma_last_dot(dir@);
                assert(last_dot(dir@) == i - 1);
            }
            let rest = dir.substring_char(i, n);
            proof {
                assert(rest@ =~= dir@.skip(i as int));
            }
            return Some(rest.to_owned());
        }
        i = i - 1;
    }
    proof {
        lemma_last_dot(dir@);
        assert(last_dot(dir@) == -1);
    }
    None
}

} // verus!
