//! The configuration file: named synchronisation targets.

use vstd::prelude::*;
use crate::text::{ascii_chars, str_is};

verus! {

/// A named target.
#[derive(Debug, Default)]
pub struct Destination {
    pub name: String,
    pub target: String,
}

/// The configuration: the named targets, in the order of the file.
#[derive(Debug, Default)]
pub struct Config {
    pub destination: Vec<Destination>,
}

/// The name of the target used when none is given: `default`.
pub open spec fn default_name() -> Seq<char> {
    seq!['d', 'e', 'f', 'a', 'u', 'l', 't']
}

/// Index of the first destination named `default`, or the number of destinations.
pub open spec fn first_default(ds: Seq<Destination>) -> int
    decreases ds.len(),
{
    if ds.len() == 0 {
        0
    } else if ds[0].name@ == default_name() {
        0
    } else {
        1 + first_default(ds.drop_first())
    }
}

proof fn lemma_first_default_at(ds: Seq<Destination>, k: int)
    requires
        0 <= k <= ds.len(),
        forall|j: int| 0 <= j < k ==> (#[trigger] ds[j]).name@ != default_name(),
        k < ds.len() ==> ds[k].name@ == default_name(),
    ensures
        first_default(ds) == k,
    decreases ds.len(),
{
    if ds.len() > 0 && k > 0 {
        assert forall|j: int| 0 <= j < k - 1 implies (#[trigger] ds.drop_first()[j]).name@ != default_name() by {
            assert(ds.drop_first()[j] == ds[j + 1]);
        }
        lemma_first_default_at(ds.drop_first(), k - 1);
    }
}

/// The target of the first destination named `default`, if any.
pub open spec fn default_target(config: Config) -> Option<Seq<char>> {
    let k = first_default(config.destination@);
    if k < config.destination@.len() {
        Some(config.destination@[k].target@)
    } else {
        None
    }
}

/// Whether `name` is `default`.
fn is_default_name(name: &String) -> (r: bool)
    ensures
        r == (name@ == default_name()),
{
    let r = str_is(name.as_str(), &[100u8, 101u8, 102u8, 97u8, 117u8, 108u8, 116u8]);
    assert(ascii_chars(seq![100u8, 101u8, 102u8, 97u8, 117u8, 108u8, 116u8]) =~= default_name());
    r
}

impl Config {
    /// The target of the first destination named `default`, if any.
    pub fn default_target(&self) -> (r: Option<String>)
        ensures
            match r {
                Some(t) => default_target(*self) == Some(t@),
                None => default_target(*self).is_none(),
            },
    {
        let mut i: usize = 0;
        while i < self.destination.len()
            invariant
                i <= self.destination@.len(),
                forall|j: int| 0 <= j < i ==> (#[trigger] self.destination@[j]).name@ != default_name(),
            decreases self.destination@.len() - i,
        {
            if is_default_name(&self.destination[i].name) {
                proof {
                    lemma_first_default_at(self.destination@, i as int);
                }
                return Some(self.destination[i].target.clone());
            }
            i = i + 1;
        }
        proof {
            lemma_first_default_at(self.destination@, i as int);
        }
        None
    }
}

/// The default target is the target of the first destination named
/// `default`, wherever it stands, the very first included.
pub proof fn law_default_target_is_first_named_default(c: Config, k: int)
    requires
        0 <= k < c.destination@.len(),
        c.destination@[k].name@ == seq!['d', 'e', 'f', 'a', 'u', 'l', 't'],
        forall|j: int| 0 <= j < k ==> (#[trigger] c.destination@[j]).name@ != seq!['d', 'e', 'f', 'a', 'u', 'l', 't'],
    ensures
        default_target(c) == Some(c.destination@[k].target@),
{
    lemma_first_default_at(c.destination@, k);
}

/// Without a destination named `default` there is no default target.
pub proof fn law_no_default_without_default_name(c: Config)
    requires
        forall|j: int| 0 <= j < c.destination@.len() ==> (#[trigger] c.destination@[j]).name@ != seq!['d', 'e', 'f', 'a', 'u', 'l', 't'],
    ensures
        default_target(c) is None,
{
    lemma_first_default_at(c.destination@, c.destination@.len() as int);
}

} // verus!
