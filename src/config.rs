//! Repository settings and the names that staging never picks up.
use crate::compression::CompressionConfig;
use vstd::prelude::*;

verus! {

pub struct Config {
    pub title: String,
    pub id: String,
    pub author: String,
    pub email: Option<String>,
    pub description: String,
    pub compression: Option<CompressionConfig>,
    pub ignore: Vec<String>,
}

pub open spec fn names_view(v: Seq<String>) -> Seq<Seq<char>> {
    v.map_values(|s: String| s@)
}

pub open spec fn always_ignored() -> Seq<Seq<char>> {
    seq![seq!['.', 'g', 'a', 't', 'o'], seq!['g', 'a', 't', 'o', '.', 't', 'o', 'm', 'l']]
}

impl Config {
    /// The configured ignore list followed by ".gato" and "gato.toml".
    pub fn ignored(self) -> (r: Vec<String>)
        ensures
            names_view(r@) == names_view(self.ignore@) + always_ignored(),
    {
        let mut ignored = self.ignore;
        let ghost before = names_view(ignored@);
        let a = ".gato".to_owned();
        let b = "gato.toml".to_owned();
        proof {
            reveal_strlit(".gato");
            reveal_strlit("gato.toml");
            assert(a@ =~= always_ignored()[0]);
            assert(b@ =~= always_ignored()[1]);
        }
        ignored.push(a);
        ignored.push(b);
        assert(names_view(ignored@) =~= before + always_ignored());
        ignored
    }
}

/// Whether some component of `path` is one of `patterns`.
pub fn is_ignored(path: &Vec<String>, patterns: &Vec<String>) -> (r: bool)
    ensures
        r == exists|i: int, j: int|
            0 <= i < path@.len() && 0 <= j < patterns@.len() && #[trigger] path@[i]@
                == #[trigger] patterns@[j]@,
{
    let mut i: usize = 0;
    while i < path.len()
        invariant
            i <= path@.len(),
            forall|a: int, b: int|
                0 <= a < i && 0 <= b < patterns@.len() ==> #[trigger] path@[a]@ != #[trigger] patterns@[b]@,
        decreases path@.len() - i,
    {
        let mut j: usize = 0;
        while j < patterns.len()
            invariant
                j <= patterns@.len(),
                i < path@.len(),
                forall|a: int, b: int|
                    0 <= a < i && 0 <= b < patterns@.len() ==> #[trigger] path@[a]@ != #[trigger] patterns@[b]@,
                forall|b: int| 0 <= b < j ==> path@[i as int]@ != #[trigger] patterns@[b]@,
            decreases patterns@.len() - j,
        {
            if path[i] == patterns[j] {
                return true;
            }
            j += 1;
        }
        i += 1;
    }
    false
}

} // verus!
