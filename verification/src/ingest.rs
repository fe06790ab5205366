//! From what a package installs to the records of the registry.
//!
//! A manual page is installed directly below `usr/share/man/`, in a
//! directory named `man` and the section in lower case, under the name of
//! the page, a dot and the section again. A file at such a path is a page;
//! a link there is an alias.

use crate::contents::{Action, PkgContentsResult};
use crate::foreign::uppercase;
use crate::record::{sorted, RecordView};
use crate::registry::{entry, first_with_key, Database};
use crate::text::{
    begins_with, chars_of, contains, ends_with, has_suffix, holds, is_str, matches_at, split,
    split_at_each, starts_with, string_of, strip_prefixes, strip_suffixes, views, without_prefixes,
    without_suffixes,
};
use vstd::prelude::*;

verus! {

/// Why a path is not that of a manual page.
#[derive(Clone, Copy, PartialEq, Eq, Debug, Structural)]
pub enum ManPathError {
    /// It does not begin with `usr/share/man/`.
    NotManual,
    /// What follows is not one directory that begins with `man` and a file
    /// in it.
    Shape,
    /// The file does not end in a dot and the directory's section.
    Suffix,
}

/// The section and the page that a path stands for. What follows the root
/// is one directory and one file. The section is what the directory holds
/// behind `man`, as often as `man` stands at its beginning; the page is the
/// file without the dot and the section, as often as they stand at its end.
pub open spec fn man_path(p: Seq<char>) -> Result<(Seq<char>, Seq<char>), ManPathError> {
    if !starts_with(p, "usr/share/man/"@) {
        Err(ManPathError::NotManual)
    } else {
        let parts = split(p.skip("usr/share/man/"@.len() as int), '/');
        if parts.len() != 2 || !starts_with(parts[0], "man"@) {
            Err(ManPathError::Shape)
        } else {
            let sect = strip_prefixes(parts[0], "man"@);
            let suffix = seq!['.'] + sect;
            if !ends_with(parts[1], suffix) {
                Err(ManPathError::Suffix)
            } else {
                Ok((uppercase(sect), strip_suffixes(parts[1], suffix)))
            }
        }
    }
}

/// The section, in upper case, and the page that a path stands for.
pub fn path_to_man(p: &str) -> (r: Result<(String, String), ManPathError>)
    ensures
        match man_path(p@) {
            Ok((sect, page)) => r matches Ok(found) && found.0@ == sect && found.1@ == page,
            Err(e) => r matches Err(x) && x == e,
        },
{
    let chars = chars_of(p);
    let root = chars_of("usr/share/man/");
    if !matches_at(chars.as_slice(), root.as_slice(), 0) {
        return Err(ManPathError::NotManual);
    }
    let rest = vstd::slice::slice_subrange(chars.as_slice(), root.len(), chars.len());
    assert(rest@ =~= p@.skip(root@.len() as int));
    let parts = split_at_each(rest, '/');
    if parts.len() != 2 {
        return Err(ManPathError::Shape);
    }
    assert(views(parts@)[0] == parts@[0]@);
    assert(views(parts@)[1] == parts@[1]@);
    if !begins_with(parts[0].as_slice(), "man") {
        return Err(ManPathError::Shape);
    }
    let man = chars_of("man");
    let sect = without_prefixes(parts[0].as_slice(), man.as_slice());
    let mut suffix: Vec<char> = Vec::new();
    suffix.push('.');
    let mut i: usize = 0;
    while i < sect.len()
        invariant
            i <= sect.len(),
            suffix@ == seq!['.'] + sect@.take(i as int),
        decreases sect.len() - i,
    {
        suffix.push(sect[i]);
        assert(suffix@ =~= seq!['.'] + sect@.take(i + 1));
        i += 1;
    }
    assert(sect@.take(sect.len() as int) =~= sect@);
    if !has_suffix(parts[1].as_slice(), suffix.as_slice()) {
        return Err(ManPathError::Suffix);
    }
    let page = without_suffixes(parts[1].as_slice(), suffix.as_slice());
    let sect = string_of(sect);
    Ok((sect.as_str().to_uppercase(), string_of(page)))
}

/// Why an action was not taken into the registry.
#[derive(Clone, Copy, PartialEq, Eq, Debug, Structural)]
pub enum IngestFault {
    /// The batch does not hold the listing of exactly one package.
    BatchSize,
    /// A path under `usr/man`, where no package should install.
    OldTree,
    /// A path under `usr/share/man/` that is not that of a page.
    Path(ManPathError),
    /// A link whose target lies in another directory.
    Target,
    /// The registry holds the page already.
    Conflict,
}

/// The action at which taking a batch into the registry stopped, counted
/// from 0, and why.
#[derive(Clone, Copy, PartialEq, Eq, Debug, Structural)]
pub struct IngestError {
    pub action: usize,
    pub fault: IngestFault,
}

/// The target of a link without the ways there that stay in the directory.
pub open spec fn bare_target(target: Seq<char>) -> Seq<char> {
    strip_prefixes(
        strip_prefixes(strip_prefixes(target, "../man1/"@), "../../../has/man/man1has/"@),
        "./"@,
    )
}

/// What an action asks of the registry: nothing, or a record for a section
/// and a page, an alias or not.
pub open spec fn asked(a: Action) -> Result<Option<(bool, Seq<char>, Seq<char>)>, IngestFault> {
    match a {
        Action::File { path } => {
            if starts_with(path@, "usr/man"@) {
                Err(IngestFault::OldTree)
            } else if !starts_with(path@, "usr/share/man/"@) {
                Ok(None)
            } else {
                match man_path(path@) {
                    Ok((sect, page)) => Ok(Some((false, sect, page))),
                    Err(e) => Err(IngestFault::Path(e)),
                }
            }
        },
        Action::Link { path, target } => {
            if path@ != "usr/man"@ && starts_with(path@, "usr/man"@) {
                Err(IngestFault::OldTree)
            } else if !starts_with(path@, "usr/share/man/"@) {
                Ok(None)
            } else {
                match man_path(path@) {
                    Ok((sect, page)) => {
                        if contains(bare_target(target@), "/"@) {
                            Err(IngestFault::Target)
                        } else {
                            Ok(Some((true, sect, page)))
                        }
                    },
                    Err(e) => Err(IngestFault::Path(e)),
                }
            }
        },
        Action::Other => Ok(None),
    }
}

/// The registry `db` after the actions `actions` of the package `owner`
/// were taken in order, and the fault that stopped the taking, if one did:
/// what was taken before it stays.
pub open spec fn taken_in(db: Seq<RecordView>, owner: Seq<char>, actions: Seq<Action>) -> (
    Seq<RecordView>,
    Option<IngestError>,
)
    decreases actions.len(),
{
    if actions.len() == 0 {
        (db, None)
    } else {
        let (s, stopped) = taken_in(db, owner, actions.drop_last());
        let at = (actions.len() - 1) as usize;
        if stopped is Some {
            (s, stopped)
        } else {
            match asked(actions.last()) {
                Err(fault) => (s, Some(IngestError { action: at, fault })),
                Ok(None) => (s, None),
                Ok(Some((link, sect, page))) => {
                    if first_with_key(s, sect, page) is Some {
                        (s, Some(IngestError { action: at, fault: IngestFault::Conflict }))
                    } else {
                        (sorted(s.push(entry(link, sect, page, owner))), None)
                    }
                },
            }
        }
    }
}

/// Once a fault has stopped the taking, the actions after it change
/// nothing.
pub proof fn lemma_taking_stops(db: Seq<RecordView>, owner: Seq<char>, actions: Seq<Action>, n: int)
    requires
        0 <= n <= actions.len(),
        taken_in(db, owner, actions.take(n)).1 is Some,
    ensures
        taken_in(db, owner, actions) == taken_in(db, owner, actions.take(n)),
    decreases actions.len(),
{
    if n < actions.len() {
        assert(actions.drop_last().take(n) =~= actions.take(n));
        lemma_taking_stops(db, owner, actions.drop_last(), n);
    } else {
        assert(actions.take(n) =~= actions);
    }
}

/// What an action asks of the registry.
pub fn ask(a: &Action) -> (r: Result<Option<(bool, String, String)>, IngestFault>)
    ensures
        match asked(*a) {
            Ok(Some((link, sect, page))) => r matches Ok(Some(e)) && e.0 == link && e.1@ == sect
                && e.2@ == page,
            Ok(None) => r matches Ok(None),
            Err(f) => r matches Err(x) && x == f,
        },
{
    match a {
        Action::File { path } => {
            let chars = chars_of(path.as_str());
            if begins_with(chars.as_slice(), "usr/man") {
                return Err(IngestFault::OldTree);
            }
            if !begins_with(chars.as_slice(), "usr/share/man/") {
                return Ok(None);
            }
            match path_to_man(path.as_str()) {
                Ok((sect, page)) => Ok(Some((false, sect, page))),
                Err(e) => Err(IngestFault::Path(e)),
            }
        },
        Action::Link { path, target } => {
            let chars = chars_of(path.as_str());
            if !is_str(chars.as_slice(), "usr/man") && begins_with(chars.as_slice(), "usr/man") {
                return Err(IngestFault::OldTree);
            }
            if !begins_with(chars.as_slice(), "usr/share/man/") {
                return Ok(None);
            }
            match path_to_man(path.as_str()) {
                Ok((sect, page)) => {
                    let t = chars_of(target.as_str());
                    let up = chars_of("../man1/");
                    let has = chars_of("../../../has/man/man1has/");
                    let here = chars_of("./");
                    let t = without_prefixes(t.as_slice(), up.as_slice());
                    let t = without_prefixes(t, has.as_slice());
                    let t = without_prefixes(t, here.as_slice());
                    if holds(t, "/") {
                        Err(IngestFault::Target)
                    } else {
                        Ok(Some((true, sect, page)))
                    }
                },
                Err(e) => Err(IngestFault::Path(e)),
            }
        },
        Action::Other => Ok(None),
    }
}

impl Database {
    /// Takes the listing of one package into the registry: its files and
    /// links under `usr/share/man/` become records that the package owns.
    /// The first fault stops the taking, and what was taken before it
    /// stays.
    pub fn ingest(&mut self, batch: &Vec<PkgContentsResult>) -> (r: Result<(), IngestError>)
        ensures
            batch@.len() != 1 ==> r == Err::<(), IngestError>(
                IngestError { action: 0, fault: IngestFault::BatchSize },
            ) && final(self)@ == old(self)@,
            batch@.len() == 1 ==> ({
                let (s, stopped) = taken_in(
                    old(self)@,
                    batch@[0].pkg.name@,
                    batch@[0].contents@,
                );
                &&& final(self)@ == s
                &&& match stopped {
                    Some(e) => r == Err::<(), IngestError>(e),
                    None => r is Ok,
                }
            }),
    {
        if batch.len() != 1 {
            return Err(IngestError { action: 0, fault: IngestFault::BatchSize });
        }
        let p = &batch[0];
        let ghost owner = p.pkg.name@;
        let ghost actions = p.contents@;
        let mut i: usize = 0;
        proof {
            assert(actions.take(0) =~= Seq::empty());
        }
        while i < p.contents.len()
            invariant
                i <= p.contents.len(),
                batch@.len() == 1,
                *p == batch@[0],
                owner == p.pkg.name@,
                actions == p.contents@,
                taken_in(old(self)@, owner, actions.take(i as int)) == (
                    self@,
                    None::<IngestError>,
                ),
            decreases p.contents.len() - i,
        {
            let a = &p.contents[i];
            proof {
                assert(actions.take(i + 1).drop_last() =~= actions.take(i as int));
                assert(actions.take(i + 1).last() == *a);
                assert(actions.take(actions.len() as int) =~= actions);
            }
            match ask(a) {
                Err(fault) => {
                    proof {
                        lemma_taking_stops(old(self)@, owner, actions, i + 1);
                    }
                    return Err(IngestError { action: i, fault });
                },
                Ok(None) => {},
                Ok(Some((link, sect, page))) => {
                    match self.insert(link, sect.as_str(), page.as_str(), p.pkg.name.as_str()) {
                        Ok(()) => {},
                        Err(_) => {
                            proof {
                                lemma_taking_stops(old(self)@, owner, actions, i + 1);
                            }
                            return Err(IngestError { action: i, fault: IngestFault::Conflict });
                        },
                    }
                },
            }
            i += 1;
        }
        assert(actions.take(actions.len() as int) =~= actions);
        Ok(())
    }
}

} // verus!
