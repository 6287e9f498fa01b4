//! The worklist of files to process: include statements are resolved against
//! the directory of the file being processed and a list of library roots, and
//! every file is handed out at most once.
use vstd::prelude::*;
use crate::path::{join_path, join_path_exec, normalize, normalize_path, parent, parent_of};

verus! {

/// Why an include statement could not be resolved.
pub enum IncludeError {
    /// No search root holds a file of the requested name.
    IncludeNotFound { name: String },
}

impl IncludeError {
    /// The diagnostic text.
    pub fn message(&self) -> (r: String)
        ensures
            r@ == "Include not found: "@ + self.name()@,
    {
        match self {
            IncludeError::IncludeNotFound { name } => {
                let r = String::from_str("Include not found: ");
                r.concat(name.as_str())
            },
        }
    }

    /// The include name that could not be resolved.
    pub open spec fn name(&self) -> String {
        match self {
            IncludeError::IncludeNotFound { name } => *name,
        }
    }
}

/// Pending files, the files already handed out, and the directory that
/// relative includes are resolved against.
pub struct FileStack {
    current_location: String,
    black_paths: Vec<String>,
    stack: Vec<String>,
}

/// The abstract state of a `FileStack`.
pub struct FileStackView {
    pub current_location: Seq<char>,
    /// Files already handed out by `take_next`.
    pub visited: Set<Seq<char>>,
    /// Files waiting, the next one last.
    pub stack: Seq<Seq<char>>,
}

impl View for FileStack {
    type V = FileStackView;

    closed spec fn view(&self) -> FileStackView {
        FileStackView {
            current_location: self.current_location@,
            visited: self.black_paths.deep_view().to_set(),
            stack: self.stack.deep_view(),
        }
    }
}

/// The directories searched for an include, in order: the current location,
/// then the libraries.
pub open spec fn search_bases(location: Seq<char>, libraries: Seq<Seq<char>>) -> Seq<Seq<char>> {
    seq![location] + libraries
}

/// Where `name` would be found under `base`.
pub open spec fn candidate(base: Seq<char>, name: Seq<char>) -> Seq<char> {
    normalize(join_path(base, name))
}

/// `i` is the first position at which `found` holds.
pub open spec fn is_first_found(found: Seq<bool>, i: int) -> bool {
    &&& 0 <= i < found.len()
    &&& found[i]
    &&& forall|k: int| 0 <= k < i ==> !found[k]
}

pub open spec fn option_view(r: Option<String>) -> Option<Seq<char>> {
    match r {
        Some(s) => Some(s@),
        None => None,
    }
}

/// What `take_next` does: drop already handed-out files from the top of the
/// stack; hand out the first other one, mark it visited and move to its
/// directory.
pub open spec fn take_next_spec(v: FileStackView) -> (Option<Seq<char>>, FileStackView)
    decreases v.stack.len(),
{
    if v.stack.len() == 0 {
        (None, v)
    } else {
        let f = v.stack.last();
        if v.visited.contains(f) {
            take_next_spec(
                FileStackView {
                    current_location: v.current_location,
                    visited: v.visited,
                    stack: v.stack.drop_last(),
                },
            )
        } else {
            (
                Some(f),
                FileStackView {
                    current_location: parent(f),
                    visited: v.visited.insert(f),
                    stack: v.stack.drop_last(),
                },
            )
        }
    }
}

/// What `take_next` does to the visited files: a file handed out was not
/// visited before and is afterwards; nothing else changes.
pub proof fn lemma_take_next_visited(v: FileStackView)
    ensures
        match take_next_spec(v).0 {
            Some(f) => !v.visited.contains(f) && take_next_spec(v).1.visited == v.visited.insert(f),
            None => take_next_spec(v).1.visited == v.visited,
        },
    decreases v.stack.len(),
{
    if v.stack.len() > 0 && v.visited.contains(v.stack.last()) {
        lemma_take_next_visited(
            FileStackView {
                current_location: v.current_location,
                visited: v.visited,
                stack: v.stack.drop_last(),
            },
        );
    }
}

/// No file is handed out twice: after `take_next` hands out a file, no later
/// state reached through `add_include` and `take_next` (which only ever add
/// to the visited files) hands it out again, however often it is pushed.
pub proof fn lemma_take_next_never_repeats(v: FileStackView, w: FileStackView)
    requires
        take_next_spec(v).0 is Some,
        take_next_spec(v).1.visited.subset_of(w.visited),
    ensures
        take_next_spec(w).0 != take_next_spec(v).0,
{
    lemma_take_next_visited(v);
    lemma_take_next_visited(w);
}

fn contains_path(paths: &Vec<String>, p: &String) -> (r: bool)
    ensures
        r == paths.deep_view().to_set().contains(p@),
{
    let mut i: usize = 0;
    while i < paths.len()
        invariant
            i <= paths.len(),
            forall|k: int| 0 <= k < i ==> paths.deep_view()[k] != p@,
        decreases paths.len() - i,
    {
        if paths[i] == *p {
            assert(paths.deep_view()[i as int] == p@);
            return true;
        }
        i = i + 1;
    }
    assert(!paths.deep_view().contains(p@));
    false
}

impl FileStack {
    /// A worklist holding the root file alone, located in its directory.
    pub fn new(src: String) -> (r: FileStack)
        ensures
            r@.current_location == parent(src@),
            r@.visited == Set::<Seq<char>>::empty(),
            r@.stack == seq![normalize(src@)],
    {
        let location = parent_of(src.as_str());
        let root = normalize_path(src.as_str());
        let mut stack: Vec<String> = Vec::new();
        stack.push(root);
        let r = FileStack { current_location: location, black_paths: Vec::new(), stack };
        assert(r@.visited =~= Set::<Seq<char>>::empty());
        assert(r@.stack =~= seq![normalize(src@)]);
        r
    }

    /// Where `name` would be looked for, in order: under the current
    /// location, then under each library.
    pub fn include_candidates(f_stack: &FileStack, name: &str, libraries: &Vec<String>) -> (r: Vec<String>)
        ensures
            r.len() == libraries.len() + 1,
            forall|i: int| 0 <= i < r.len() ==> #[trigger] r[i]@ == candidate(
                search_bases(f_stack@.current_location, libraries.deep_view())[i],
                name@,
            ),
    {
        let ghost bases = search_bases(f_stack@.current_location, libraries.deep_view());
        let mut r: Vec<String> = Vec::new();
        let first = join_path_exec(f_stack.current_location.as_str(), name);
        r.push(normalize_path(first.as_str()));
        let mut i: usize = 0;
        while i < libraries.len()
            invariant
                i <= libraries.len(),
                bases == search_bases(f_stack@.current_location, libraries.deep_view()),
                r.len() == i + 1,
                forall|k: int| 0 <= k < r.len() ==> #[trigger] r[k]@ == candidate(bases[k], name@),
            decreases libraries.len() - i,
        {
            let joined = join_path_exec(libraries[i].as_str(), name);
            r.push(normalize_path(joined.as_str()));
            assert(bases[i + 1] == libraries[i as int]@);
            i = i + 1;
        }
        r
    }

    /// Resolves the include `name`. `found[i]` tells whether the `i`-th
    /// candidate of `include_candidates` is an existing file; the first that
    /// is wins. A file not yet handed out is pushed to be processed; one
    /// already handed out resolves all the same and is not pushed again.
    pub fn add_include(f_stack: &mut FileStack, name: String, libraries: &Vec<String>, found: &Vec<bool>) -> (r: Result<String, IncludeError>)
        requires
            found.len() == libraries.len() + 1,
        ensures
            r is Ok <==> exists|i: int| 0 <= i < found.len() && found[i],
            final(f_stack)@.current_location == old(f_stack)@.current_location,
            final(f_stack)@.visited == old(f_stack)@.visited,
            match r {
                Ok(p) => {
                    &&& exists|i: int| #[trigger] is_first_found(found@, i) && p@ == candidate(
                        search_bases(old(f_stack)@.current_location, libraries.deep_view())[i],
                        name@,
                    )
                    &&& final(f_stack)@.stack == (if old(f_stack)@.visited.contains(p@) {
                        old(f_stack)@.stack
                    } else {
                        old(f_stack)@.stack.push(p@)
                    })
                },
                Err(e) => {
                    &&& e.name() == name
                    &&& final(f_stack)@.stack == old(f_stack)@.stack
                },
            },
    {
        let candidates = Self::include_candidates(f_stack, name.as_str(), libraries);
        let mut i: usize = 0;
        while i < found.len()
            invariant
                i <= found.len(),
                found.len() == candidates.len(),
                candidates.len() == libraries.len() + 1,
                forall|k: int| 0 <= k < candidates.len() ==> #[trigger] candidates[k]@ == candidate(
                    search_bases(old(f_stack)@.current_location, libraries.deep_view())[k],
                    name@,
                ),
                forall|k: int| 0 <= k < i ==> !found[k],
                *f_stack == *old(f_stack),
            decreases found.len() - i,
        {
            if found[i] {
                let path = candidates[i].clone();
                let ghost bases = search_bases(old(f_stack)@.current_location, libraries.deep_view());
                assert(candidates[i as int]@ == candidate(bases[i as int], name@));
                assert(is_first_found(found@, i as int) && path@ == candidate(bases[i as int], name@));
                if !contains_path(&f_stack.black_paths, &path) {
                    let ghost s0 = f_stack.stack.deep_view();
                    f_stack.stack.push(path.clone());
                    assert(f_stack.stack.deep_view() =~= s0.push(path@));
                }
                return Ok(path);
            }
            i = i + 1;
        }
        Err(IncludeError::IncludeNotFound { name })
    }

    /// Hands out the next pending file that has not been handed out before,
    /// marks it visited and makes its directory the current location;
    /// `None` once nothing is pending.
    pub fn take_next(f_stack: &mut FileStack) -> (r: Option<String>)
        ensures
            (option_view(r), final(f_stack)@) == take_next_spec(old(f_stack)@),
    {
        loop
            invariant
                take_next_spec(f_stack@) == take_next_spec(old(f_stack)@),
            decreases f_stack.stack.len(),
        {
            let ghost v = f_stack@;
            match f_stack.stack.pop() {
                None => {
                    return None;
                },
                Some(file) => {
                    assert(f_stack.stack.deep_view() =~= v.stack.drop_last());
                    if !contains_path(&f_stack.black_paths, &file) {
                        f_stack.current_location = parent_of(file.as_str());
                        let ghost b0 = f_stack.black_paths.deep_view();
                        f_stack.black_paths.push(file.clone());
                        proof {
                            b0.lemma_push_to_set_commute(file@);
                        }
                        assert(f_stack.black_paths.deep_view() =~= b0.push(file@));
                        return Some(file);
                    }
                },
            }
        }
    }
}

} // verus!
