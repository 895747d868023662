use vstd::prelude::*;
use vstd::string::StrSliceExecFns;

verus! {

/// The code of `c` with ASCII capitals folded to small letters.
pub open spec fn folded(c: char) -> u32 {
    if 65 <= c as u32 <= 90 {
        (c as u32 + 32) as u32
    } else {
        c as u32
    }
}

/// `a` and `b` are equal up to the case of ASCII letters.
pub open spec fn same_ignoring_ascii_case(a: Seq<char>, b: Seq<char>) -> bool {
    &&& a.len() == b.len()
    &&& forall|i: int| 0 <= i < a.len() ==> #[trigger] folded(a[i]) == folded(b[i])
}

fn fold_char(c: char) -> (code: u32)
    ensures
        code == folded(c),
{
    let code = c as u32;
    if code >= 65 && code <= 90 {
        code + 32
    } else {
        code
    }
}

/// Whether `a` and `b` are equal up to the case of ASCII letters.
pub fn eq_ignore_ascii_case(a: &str, b: &str) -> (same: bool)
    ensures
        same == same_ignoring_ascii_case(a@, b@),
{
    let len = a.unicode_len();
    if len != b.unicode_len() {
        return false;
    }
    let mut i: usize = 0;
    while i < len
        invariant
            len == a@.len(),
            len == b@.len(),
            i <= len,
            forall|j: int| 0 <= j < i ==> #[trigger] folded(a@[j]) == folded(b@[j]),
        decreases len - i,
    {
        if fold_char(a.get_char(i)) != fold_char(b.get_char(i)) {
            return false;
        }
        i = i + 1;
    }
    true
}

/// Whether `a` and `b` are the same text.
pub fn str_equals(a: &str, b: &str) -> (same: bool)
    ensures
        same == (a@ == b@),
{
    let len = a.unicode_len();
    if len != b.unicode_len() {
        return false;
    }
    let mut i: usize = 0;
    while i < len
        invariant
            len == a@.len(),
            len == b@.len(),
            i <= len,
            forall|j: int| 0 <= j < i ==> a@[j] == b@[j],
        decreases len - i,
    {
        if a.get_char(i) != b.get_char(i) {
            return false;
        }
        i = i + 1;
    }
    assert(a@ =~= b@);
    true
}

/// A layout algorithm.
#[derive(Clone, Copy, Debug, PartialEq, Eq, Structural)]
pub enum Algorithm {
    Bfs,
    Circular,
    ForceAtlas2,
    Radial,
    KamadaKawai,
    Planar,
    Random,
    Rescale,
    Shell,
    Spectral,
    Spiral,
    Spring,
    Multipartite,
    Force,
    Grid,
    Layered,
}

/// The algorithm that an option names; any name that is not known means the layered one.
pub open spec fn algorithm_named(name: Seq<char>) -> Algorithm {
    if name == "bfs"@ {
        Algorithm::Bfs
    } else if name == "circular"@ {
        Algorithm::Circular
    } else if name == "forceatlas2"@ {
        Algorithm::ForceAtlas2
    } else if name == "radial"@ {
        Algorithm::Radial
    } else if name == "kamada_kawai"@ || name == "kamada-kawai"@ {
        Algorithm::KamadaKawai
    } else if name == "planar"@ {
        Algorithm::Planar
    } else if name == "random"@ {
        Algorithm::Random
    } else if name == "rescale"@ {
        Algorithm::Rescale
    } else if name == "shell"@ {
        Algorithm::Shell
    } else if name == "spectral"@ {
        Algorithm::Spectral
    } else if name == "spiral"@ {
        Algorithm::Spiral
    } else if name == "spring"@ || name == "fruchterman_reingold"@ || name == "fruchterman-reingold"@ {
        Algorithm::Spring
    } else if name == "multipartite"@ {
        Algorithm::Multipartite
    } else if name == "force"@ {
        Algorithm::Force
    } else if name == "grid"@ {
        Algorithm::Grid
    } else {
        Algorithm::Layered
    }
}

/// Each documented algorithm name selects its own algorithm; the two spellings of Kamada-Kawai
/// and the three of the spring layout select the same one.
pub proof fn lemma_algorithm_names()
    ensures
        algorithm_named("bfs"@) == Algorithm::Bfs,
        algorithm_named("circular"@) == Algorithm::Circular,
        algorithm_named("forceatlas2"@) == Algorithm::ForceAtlas2,
        algorithm_named("radial"@) == Algorithm::Radial,
        algorithm_named("kamada_kawai"@) == Algorithm::KamadaKawai,
        algorithm_named("kamada-kawai"@) == Algorithm::KamadaKawai,
        algorithm_named("planar"@) == Algorithm::Planar,
        algorithm_named("random"@) == Algorithm::Random,
        algorithm_named("rescale"@) == Algorithm::Rescale,
        algorithm_named("shell"@) == Algorithm::Shell,
        algorithm_named("spectral"@) == Algorithm::Spectral,
        algorithm_named("spiral"@) == Algorithm::Spiral,
        algorithm_named("spring"@) == Algorithm::Spring,
        algorithm_named("fruchterman_reingold"@) == Algorithm::Spring,
        algorithm_named("fruchterman-reingold"@) == Algorithm::Spring,
        algorithm_named("multipartite"@) == Algorithm::Multipartite,
        algorithm_named("force"@) == Algorithm::Force,
        algorithm_named("grid"@) == Algorithm::Grid,
        algorithm_named("layered"@) == Algorithm::Layered,
{
    reveal_strlit("bfs");
    reveal_strlit("circular");
    reveal_strlit("forceatlas2");
    reveal_strlit("radial");
    reveal_strlit("kamada_kawai");
    reveal_strlit("kamada-kawai");
    reveal_strlit("planar");
    reveal_strlit("random");
    reveal_strlit("rescale");
    reveal_strlit("shell");
    reveal_strlit("spectral");
    reveal_strlit("spiral");
    reveal_strlit("spring");
    reveal_strlit("fruchterman_reingold");
    reveal_strlit("fruchterman-reingold");
    reveal_strlit("multipartite");
    reveal_strlit("force");
    reveal_strlit("grid");
    reveal_strlit("layered");
    assert("bfs"@.len() == 3);
    assert("circular"@.len() == 8);
    assert("forceatlas2"@.len() == 11);
    assert("radial"@.len() == 6);
    assert("kamada_kawai"@.len() == 12);
    assert("kamada-kawai"@.len() == 12);
    assert("planar"@.len() == 6);
    assert("random"@.len() == 6);
    assert("rescale"@.len() == 7);
    assert("shell"@.len() == 5);
    assert("spectral"@.len() == 8);
    assert("spiral"@.len() == 6);
    assert("spring"@.len() == 6);
    assert("fruchterman_reingold"@.len() == 20);
    assert("fruchterman-reingold"@.len() == 20);
    assert("multipartite"@.len() == 12);
    assert("force"@.len() == 5);
    assert("grid"@.len() == 4);
    assert("layered"@.len() == 7);
    assert("kamada-kawai"@[6] != "kamada_kawai"@[6]);
    assert("planar"@[0] != "radial"@[0]);
    assert("random"@[2] != "radial"@[2]);
    assert("random"@[0] != "planar"@[0]);
    assert("spectral"@[0] != "circular"@[0]);
    assert("spiral"@[0] != "radial"@[0]);
    assert("spiral"@[0] != "planar"@[0]);
    assert("spiral"@[0] != "random"@[0]);
    assert("spring"@[0] != "radial"@[0]);
    assert("spring"@[0] != "planar"@[0]);
    assert("spring"@[0] != "random"@[0]);
    assert("spring"@[2] != "spiral"@[2]);
    assert("fruchterman-reingold"@[11] != "fruchterman_reingold"@[11]);
    assert("multipartite"@[0] != "kamada_kawai"@[0]);
    assert("multipartite"@[0] != "kamada-kawai"@[0]);
    assert("force"@[0] != "shell"@[0]);
    assert("layered"@[0] != "rescale"@[0]);
}

/// The algorithm that an option names; any name that is not known means the layered one.
pub fn algorithm_from_name(name: &str) -> (algorithm: Algorithm)
    ensures
        algorithm == algorithm_named(name@),
        name@ == "bfs"@ ==> algorithm == Algorithm::Bfs,
        name@ == "circular"@ ==> algorithm == Algorithm::Circular,
        name@ == "forceatlas2"@ ==> algorithm == Algorithm::ForceAtlas2,
        name@ == "radial"@ ==> algorithm == Algorithm::Radial,
        name@ == "kamada_kawai"@ ==> algorithm == Algorithm::KamadaKawai,
        name@ == "kamada-kawai"@ ==> algorithm == Algorithm::KamadaKawai,
        name@ == "planar"@ ==> algorithm == Algorithm::Planar,
        name@ == "random"@ ==> algorithm == Algorithm::Random,
        name@ == "rescale"@ ==> algorithm == Algorithm::Rescale,
        name@ == "shell"@ ==> algorithm == Algorithm::Shell,
        name@ == "spectral"@ ==> algorithm == Algorithm::Spectral,
        name@ == "spiral"@ ==> algorithm == Algorithm::Spiral,
        name@ == "spring"@ ==> algorithm == Algorithm::Spring,
        name@ == "fruchterman_reingold"@ ==> algorithm == Algorithm::Spring,
        name@ == "fruchterman-reingold"@ ==> algorithm == Algorithm::Spring,
        name@ == "multipartite"@ ==> algorithm == Algorithm::Multipartite,
        name@ == "force"@ ==> algorithm == Algorithm::Force,
        name@ == "grid"@ ==> algorithm == Algorithm::Grid,
        name@ == "layered"@ ==> algorithm == Algorithm::Layered,
        name@ != "bfs"@ && name@ != "circular"@ && name@ != "forceatlas2"@ && name@ != "radial"@ && name@ != "kamada_kawai"@ && name@ != "kamada-kawai"@ && name@ != "planar"@ && name@ != "random"@ && name@ != "rescale"@ && name@ != "shell"@ && name@ != "spectral"@ && name@ != "spiral"@ && name@ != "spring"@ && name@ != "fruchterman_reingold"@ && name@ != "fruchterman-reingold"@ && name@ != "multipartite"@ && name@ != "force"@ && name@ != "grid"@ ==> algorithm == Algorithm::Layered,
{
    proof {
        lemma_algorithm_names();
    }
    if str_equals(name, "bfs") {
        Algorithm::Bfs
    } else if str_equals(name, "circular") {
        Algorithm::Circular
    } else if str_equals(name, "forceatlas2") {
        Algorithm::ForceAtlas2
    } else if str_equals(name, "radial") {
        Algorithm::Radial
    } else if str_equals(name, "kamada_kawai") || str_equals(name, "kamada-kawai") {
        Algorithm::KamadaKawai
    } else if str_equals(name, "planar") {
        Algorithm::Planar
    } else if str_equals(name, "random") {
        Algorithm::Random
    } else if str_equals(name, "rescale") {
        Algorithm::Rescale
    } else if str_equals(name, "shell") {
        Algorithm::Shell
    } else if str_equals(name, "spectral") {
        Algorithm::Spectral
    } else if str_equals(name, "spiral") {
        Algorithm::Spiral
    } else if str_equals(name, "spring") || str_equals(name, "fruchterman_reingold") || str_equals(
        name,
        "fruchterman-reingold",
    ) {
        Algorithm::Spring
    } else if str_equals(name, "multipartite") {
        Algorithm::Multipartite
    } else if str_equals(name, "force") {
        Algorithm::Force
    } else if str_equals(name, "grid") {
        Algorithm::Grid
    } else {
        Algorithm::Layered
    }
}

/// Whether a layered drawing runs left to right: the direction is `RIGHT` or `LR`, in any
/// case.
pub fn runs_left_to_right(direction: &str) -> (across: bool)
    ensures
        across == (same_ignoring_ascii_case(direction@, "RIGHT"@) || same_ignoring_ascii_case(
            direction@,
            "LR"@,
        )),
{
    eq_ignore_ascii_case(direction, "RIGHT") || eq_ignore_ascii_case(direction, "LR")
}

/// Whether layers are aligned horizontally: the alignment is `horizontal`, in any case.
pub fn aligns_horizontally(align: &str) -> (horizontal: bool)
    ensures
        horizontal == same_ignoring_ascii_case(align@, "horizontal"@),
{
    eq_ignore_ascii_case(align, "horizontal")
}

/// Whether an alignment is one of `vertical` and `horizontal`, in any case.
pub fn is_known_alignment(align: &str) -> (known: bool)
    ensures
        known == (same_ignoring_ascii_case(align@, "vertical"@) || same_ignoring_ascii_case(
            align@,
            "horizontal"@,
        )),
{
    eq_ignore_ascii_case(align, "vertical") || eq_ignore_ascii_case(align, "horizontal")
}

/// Whether a spring layout method is one of `auto`, `force` and `energy`, exactly.
pub fn is_spring_method(method: &str) -> (known: bool)
    ensures
        known == (method@ == "auto"@ || method@ == "force"@ || method@ == "energy"@),
{
    str_equals(method, "auto") || str_equals(method, "force") || str_equals(method, "energy")
}

} // verus!
