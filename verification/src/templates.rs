//! Which page templates come from the copies compiled into the program.
use vstd::prelude::*;

use crate::text::same;

verus! {

/// Whether a name stands among the names of the templates found on disk.
pub open spec fn on_disk(loaded: Seq<String>, name: Seq<char>) -> bool {
    exists|i: int| 0 <= i < loaded.len() && (#[trigger] loaded[i])@ == name
}

fn is_on_disk(loaded: &[String], name: &str) -> (found: bool)
    ensures
        found == on_disk(loaded@, name@),
{
    for i in 0..loaded.len()
        invariant
            forall|k: int| 0 <= k < i ==> (#[trigger] loaded@[k])@ != name@,
    {
        if same(&loaded[i], name) {
            assert(loaded@[i as int]@ == name@);
            return true;
        }
    }
    false
}

/// Whether these are the positions, in order, of the compiled-in templates that
/// were not found on disk.
pub open spec fn are_missing(
    missing: Seq<usize>,
    embedded: Seq<String>,
    loaded: Seq<String>,
) -> bool {
    &&& forall|k: int, l: int| 0 <= k < l < missing.len() ==> missing[k] < missing[l]
    &&& forall|k: int|
        0 <= k < missing.len() ==> (#[trigger] missing[k]) < embedded.len() && !on_disk(
            loaded,
            embedded[missing[k] as int]@,
        )
    &&& forall|i: int|
        0 <= i < embedded.len() && !on_disk(loaded, (#[trigger] embedded[i])@) ==> exists|k: int|
            0 <= k < missing.len() && #[trigger] missing[k] == i
}

/// The positions, in order, of the compiled-in templates that were not found on
/// disk: those are the ones to register.
pub fn missing_templates(embedded: &[String], loaded: &[String]) -> (missing: Vec<usize>)
    ensures
        forall|k: int, l: int| 0 <= k < l < missing@.len() ==> missing@[k] < missing@[l],
        forall|k: int|
            0 <= k < missing@.len() ==> (#[trigger] missing@[k]) < embedded@.len() && !on_disk(
                loaded@,
                embedded@[missing@[k] as int]@,
            ),
        forall|i: int|
            0 <= i < embedded@.len() && !on_disk(loaded@, (#[trigger] embedded@[i])@)
                ==> exists|k: int| 0 <= k < missing@.len() && #[trigger] missing@[k] == i,
        are_missing(missing@, embedded@, loaded@),
{
    let mut missing: Vec<usize> = Vec::new();
    for i in 0..embedded.len()
        invariant
            forall|k: int, l: int| 0 <= k < l < missing@.len() ==> missing@[k] < missing@[l],
            forall|k: int|
                0 <= k < missing@.len() ==> (#[trigger] missing@[k]) < i && !on_disk(
                    loaded@,
                    embedded@[missing@[k] as int]@,
                ),
            forall|j: int|
                0 <= j < i && !on_disk(loaded@, (#[trigger] embedded@[j])@) ==> exists|k: int|
                    0 <= k < missing@.len() && #[trigger] missing@[k] == j,
    {
        if !is_on_disk(loaded, &embedded[i]) {
            let ghost before = missing@;
            missing.push(i);
            assert forall|j: int|
                0 <= j < i + 1 && !on_disk(loaded@, (#[trigger] embedded@[j])@) implies exists|
                k: int,
            |
                0 <= k < missing@.len() && #[trigger] missing@[k] == j by {
                if j == i {
                    assert(missing@[before.len() as int] == i);
                } else {
                    let k = choose|k: int| 0 <= k < before.len() && #[trigger] before[k] == j;
                    assert(missing@[k] == j);
                }
            }
        }
    }
    missing
}

/// A template counts as found on disk exactly where one of the templates there has
/// its very name.
pub proof fn template_is_found_by_its_name(loaded: Seq<String>, name: Seq<char>)
    ensures
        on_disk(loaded, name) <==> !(forall|i: int|
            0 <= i < loaded.len() ==> (#[trigger] loaded[i])@ != name),
{
}

/// A compiled-in template is registered exactly where no template on disk has its
/// name.
pub proof fn every_template_has_one_source(
    missing: Seq<usize>,
    embedded: Seq<String>,
    loaded: Seq<String>,
    i: int,
    j: int,
)
    requires
        are_missing(missing, embedded, loaded),
        0 <= i < embedded.len(),
    ensures
        0 <= j < loaded.len() && loaded[j]@ == embedded[i]@ ==> forall|k: int|
            0 <= k < missing.len() ==> #[trigger] missing[k] != i,
        (forall|l: int| 0 <= l < loaded.len() ==> (#[trigger] loaded[l])@ != embedded[i]@)
            ==> exists|k: int| 0 <= k < missing.len() && #[trigger] missing[k] == i,
{
    if 0 <= j < loaded.len() && loaded[j]@ == embedded[i]@ {
        assert(on_disk(loaded, embedded[i]@));
    }
    if !on_disk(loaded, embedded[i]@) {
        assert(exists|k: int| 0 <= k < missing.len() && #[trigger] missing[k] == i);
    }
}

} // verus!
