//! The package database: the catalog of installed packages and the catalog
//! of packages on offer, each keyed by package name.
use vstd::prelude::*;
use vstd::string::*;
use crate::catalog::{
    find, has_name, lemma_contains_iff_mapped, lemma_push_contains, lemma_to_map_all,
    lemma_to_map_entry, remove_named, sorted_by_name, to_map, upsert, views,
};
use crate::order::{lemma_lex_irreflexive, lemma_lex_transitive, lex_lt};
use crate::package::{Package, PackageView};
use crate::text::{lower_of, lowercase, lowered_match, matches_lowered, table_line, table_row};

verus! {

pub open spec fn default_version() -> Seq<char> {
    "0.1.0"@
}

pub open spec fn custom_description() -> Seq<char> {
    "Пользовательский пакет"@
}

/// The version an installation records: the one asked for, else the default.
pub open spec fn chosen_version(version: Option<&str>) -> Seq<char> {
    match version {
        Some(v) => v@,
        None => default_version(),
    }
}

/// The record that installing `name` adds: the description comes from the
/// offered package of that name, or is the one of a custom package.
pub open spec fn installed_record(
    available: Map<Seq<char>, PackageView>,
    name: Seq<char>,
    version: Seq<char>,
) -> PackageView {
    PackageView {
        name,
        version,
        description: if available.contains_key(name) {
            available[name].description
        } else {
            custom_description()
        },
    }
}

pub open spec fn already_installed_message(name: Seq<char>) -> Seq<char> {
    "Пакет '"@ + name + "' уже установлен"@
}

pub open spec fn not_installed_message(name: Seq<char>) -> Seq<char> {
    "Пакет '"@ + name + "' не найден среди установленных"@
}

/// The packages on offer in a fresh database: name, version, description.
pub open spec fn default_entries() -> Seq<(Seq<char>, Seq<char>, Seq<char>)> {
    seq![
        ("firefox"@, "118.0.1"@, "Mozilla Firefox web browser"@),
        ("chrome"@, "119.0.6045"@, "Google Chrome browser"@),
        ("vscode"@, "1.84.2"@, "Visual Studio Code editor"@),
        ("git"@, "2.42.0"@, "Distributed version control system"@),
        ("python"@, "3.11.6"@, "Python programming language"@),
        ("nodejs"@, "20.9.0"@, "JavaScript runtime"@),
        ("docker"@, "24.0.7"@, "Container platform"@),
        ("vim"@, "9.0.2048"@, "Vi IMproved text editor"@),
        ("emacs"@, "29.1"@, "GNU Emacs text editor"@),
        ("gcc"@, "13.2.0"@, "GNU Compiler Collection"@),
        ("rust"@, "1.73.0"@, "Rust programming language"@),
        ("go"@, "1.21.4"@, "Go programming language"@),
        ("java"@, "21.0.1"@, "OpenJDK Java runtime"@),
        ("mysql"@, "8.0.35"@, "MySQL database server"@),
        ("postgresql"@, "16.0"@, "PostgreSQL database"@),
        ("nginx"@, "1.24.0"@, "HTTP and reverse proxy server"@),
        ("apache"@, "2.4.57"@, "Apache HTTP Server"@),
        ("redis"@, "7.2.3"@, "In-memory data structure store"@),
        ("mongodb"@, "7.0.2"@, "Document database"@),
        ("curl"@, "8.4.0"@, "Command line tool for transferring data"@),
    ]
}

/// `m` with each entry recorded in turn; a later entry replaces an earlier
/// one of the same name.
pub open spec fn insert_entries(
    m: Map<Seq<char>, PackageView>,
    e: Seq<(Seq<char>, Seq<char>, Seq<char>)>,
) -> Map<Seq<char>, PackageView>
    decreases e.len(),
{
    if e.len() == 0 {
        m
    } else {
        let last = e.last();
        insert_entries(m, e.drop_last()).insert(
            last.0,
            PackageView { name: last.0, version: last.1, description: last.2 },
        )
    }
}

/// A package matches a query where the query occurs in its name or its
/// description, letter case aside.
pub open spec fn package_matches(p: PackageView, query: Seq<char>) -> bool {
    lowered_match(lower_of(p.name), lower_of(p.description), lower_of(query))
}

/// `pv` is an offered package that matches the query.
pub open spec fn offered_hit(available: Map<Seq<char>, PackageView>, query: Seq<char>, pv: PackageView) -> bool {
    available.contains_key(pv.name) && available[pv.name] == pv && package_matches(pv, query)
}

/// `pv` is found by a search: an offered package that matches, or an
/// installed one that matches where no offered package of its name does.
pub open spec fn search_hit(
    available: Map<Seq<char>, PackageView>,
    installed: Map<Seq<char>, PackageView>,
    query: Seq<char>,
    pv: PackageView,
) -> bool {
    offered_hit(available, query, pv) || (installed.contains_key(pv.name) && installed[pv.name] == pv
        && package_matches(pv, query) && !(available.contains_key(pv.name) && package_matches(
        available[pv.name],
        query,
    )))
}

pub open spec fn installed_mark() -> Seq<char> {
    " [УСТАНОВЛЕН]"@
}

/// `m` with each record of `s` entered in turn under its name.
pub open spec fn insert_records(m: Map<Seq<char>, PackageView>, s: Seq<PackageView>) -> Map<Seq<char>, PackageView>
    decreases s.len(),
{
    if s.len() == 0 {
        m
    } else {
        insert_records(m, s.drop_last()).insert(s.last().name, s.last())
    }
}

/// Builds `prefix`, then `name`, then `suffix`.
fn quoted_message(prefix: &str, name: &str, suffix: &str) -> (r: String)
    ensures
        r@ == prefix@ + name@ + suffix@,
{
    let mut s = String::from_str(prefix);
    s.append(name);
    s.append(suffix);
    s
}

/// A sorted catalog of the records, entered in turn under their names.
fn sorted_catalog(records: Vec<Package>) -> (r: Vec<Package>)
    ensures
        sorted_by_name(views(r@)),
        to_map(views(r@)) == insert_records(Map::empty(), views(records@)),
{
    let ghost s = views(records@);
    let mut out: Vec<Package> = Vec::new();
    proof {
        assert(to_map(views(out@)) =~= Map::<Seq<char>, PackageView>::empty());
    }
    let mut i: usize = 0;
    while i < records.len()
        invariant
            s == views(records@),
            i <= records@.len(),
            sorted_by_name(views(out@)),
            to_map(views(out@)) == insert_records(Map::empty(), s.subrange(0, i as int)),
        decreases records@.len() - i,
    {
        upsert(&mut out, records[i].duplicate());
        proof {
            assert(s.subrange(0, (i + 1) as int).drop_last() =~= s.subrange(0, i as int));
            assert(s[i as int] == records@[i as int]@);
        }
        i = i + 1;
    }
    assert(s.subrange(0, s.len() as int) =~= s);
    out
}

/// A copy of a catalog, record for record.
fn copy_catalog(v: &Vec<Package>) -> (r: Vec<Package>)
    ensures
        views(r@) == views(v@),
{
    let mut out: Vec<Package> = Vec::new();
    let mut i: usize = 0;
    while i < v.len()
        invariant
            i <= v@.len(),
            out@.len() == i,
            views(out@) == views(v@).subrange(0, i as int),
        decreases v@.len() - i,
    {
        out.push(v[i].duplicate());
        proof {
            assert(out@[i as int]@ == v@[i as int]@);
            assert forall|k: int| 0 <= k < i implies views(out@)[k] == views(v@)[k] by {
                assert(views(out@)[k] == out@[k]@);
                assert(views(v@).subrange(0, i as int)[k] == views(v@)[k]);
            }
            assert(views(out@) =~= views(v@).subrange(0, (i + 1) as int));
        }
        i = i + 1;
    }
    assert(views(v@).subrange(0, v@.len() as int) =~= views(v@));
    out
}

pub struct PackageDatabase {
    installed: Vec<Package>,
    available: Vec<Package>,
}

impl PackageDatabase {
    /// Both catalogs are sorted by name, so no name occurs twice in either.
    pub closed spec fn wf(&self) -> bool {
        sorted_by_name(views(self.installed@)) && sorted_by_name(views(self.available@))
    }

    /// The installed packages, keyed by name.
    pub closed spec fn installed_map(&self) -> Map<Seq<char>, PackageView> {
        to_map(views(self.installed@))
    }

    /// The packages on offer, keyed by name.
    pub closed spec fn available_map(&self) -> Map<Seq<char>, PackageView> {
        to_map(views(self.available@))
    }

    /// A database with nothing installed and the default packages on offer.
    pub fn new() -> (r: PackageDatabase)
        ensures
            r.wf(),
            r.installed_map() == Map::<Seq<char>, PackageView>::empty(),
            r.available_map() == insert_entries(Map::empty(), default_entries()),
    {
        let mut db = PackageDatabase { installed: Vec::new(), available: Vec::new() };
        proof {
            assert(to_map(views(db.installed@)) =~= Map::<Seq<char>, PackageView>::empty());
            assert(to_map(views(db.available@)) =~= Map::<Seq<char>, PackageView>::empty());
        }
        db.populate_available_packages();
        db
    }

    /// Offers the default packages, each replacing an offered package of the
    /// same name.
    pub fn populate_available_packages(&mut self)
        requires
            old(self).wf(),
        ensures
            final(self).wf(),
            final(self).installed_map() == old(self).installed_map(),
            final(self).available_map() == insert_entries(old(self).available_map(), default_entries()),
    {
        let entries: Vec<(&str, &str, &str)> = vec![
            ("firefox", "118.0.1", "Mozilla Firefox web browser"),
            ("chrome", "119.0.6045", "Google Chrome browser"),
            ("vscode", "1.84.2", "Visual Studio Code editor"),
            ("git", "2.42.0", "Distributed version control system"),
            ("python", "3.11.6", "Python programming language"),
            ("nodejs", "20.9.0", "JavaScript runtime"),
            ("docker", "24.0.7", "Container platform"),
            ("vim", "9.0.2048", "Vi IMproved text editor"),
            ("emacs", "29.1", "GNU Emacs text editor"),
            ("gcc", "13.2.0", "GNU Compiler Collection"),
            ("rust", "1.73.0", "Rust programming language"),
            ("go", "1.21.4", "Go programming language"),
            ("java", "21.0.1", "OpenJDK Java runtime"),
            ("mysql", "8.0.35", "MySQL database server"),
            ("postgresql", "16.0", "PostgreSQL database"),
            ("nginx", "1.24.0", "HTTP and reverse proxy server"),
            ("apache", "2.4.57", "Apache HTTP Server"),
            ("redis", "7.2.3", "In-memory data structure store"),
            ("mongodb", "7.0.2", "Document database"),
            ("curl", "8.4.0", "Command line tool for transferring data"),
        ];
        let ghost e = entries@.map_values(|t: (&str, &str, &str)| (t.0@, t.1@, t.2@));
        let ghost start = self.available_map();
        assert(e =~= default_entries());
        let mut i: usize = 0;
        while i < entries.len()
            invariant
                self.wf(),
                self.installed_map() == old(self).installed_map(),
                i <= entries@.len(),
                e == entries@.map_values(|t: (&str, &str, &str)| (t.0@, t.1@, t.2@)),
                self.available_map() == insert_entries(start, e.subrange(0, i as int)),
            decreases entries@.len() - i,
        {
            let (name, version, description) = entries[i];
            upsert(&mut self.available, Package::new(name, version, description));
            proof {
                assert(e.subrange(0, (i + 1) as int).drop_last() =~= e.subrange(0, i as int));
            }
            i = i + 1;
        }
        assert(e.subrange(0, e.len() as int) =~= e);
    }

    /// Installs `name` at the version asked for, or at the default version.
    /// A package that is already installed is refused.
    pub fn install_package(&mut self, name: &str, version: Option<&str>) -> (r: Result<(), String>)
        requires
            old(self).wf(),
        ensures
            final(self).wf(),
            final(self).available_map() == old(self).available_map(),
            r is Err <==> old(self).installed_map().contains_key(name@),
            match r {
                Ok(()) => final(self).installed_map() == old(self).installed_map().insert(
                    name@,
                    installed_record(old(self).available_map(), name@, chosen_version(version)),
                ),
                Err(m) => final(self).installed_map() == old(self).installed_map()
                    && m@ == already_installed_message(name@),
            },
    {
        proof {
            lemma_to_map_all(views(self.installed@));
            lemma_to_map_all(views(self.available@));
        }
        if let Some(i) = find(&self.installed, name) {
            proof {
                assert(views(self.installed@)[i as int] == self.installed@[i as int]@);
                    lemma_to_map_entry(views(self.installed@), i as int);
            }
            return Err(quoted_message("Пакет '", name, "' уже установлен"));
        }
        let version = match version {
            Some(v) => v,
            None => "0.1.0",
        };
        let description = match find(&self.available, name) {
            Some(i) => {
                proof {
                    assert(views(self.available@)[i as int] == self.available@[i as int]@);
                    lemma_to_map_entry(views(self.available@), i as int);
                }
                self.available[i].description.clone()
            },
            None => String::from_str("Пользовательский пакет"),
        };
        let package = Package { name: String::from_str(name), version: String::from_str(version), description };
        upsert(&mut self.installed, package);
        Ok(())
    }

    /// Removes the installed package `name` and hands its record back.
    /// A package that is not installed is refused.
    pub fn remove_package(&mut self, name: &str) -> (r: Result<Package, String>)
        requires
            old(self).wf(),
        ensures
            final(self).wf(),
            final(self).available_map() == old(self).available_map(),
            r is Ok <==> old(self).installed_map().contains_key(name@),
            match r {
                Ok(p) => p@ == old(self).installed_map()[name@]
                    && final(self).installed_map() == old(self).installed_map().remove(name@),
                Err(m) => final(self).installed_map() == old(self).installed_map()
                    && m@ == not_installed_message(name@),
            },
    {
        match remove_named(&mut self.installed, name) {
            Some(p) => Ok(p),
            None => Err(quoted_message("Пакет '", name, "' не найден среди установленных")),
        }
    }

    /// The packages whose name or description holds the query, letter case
    /// aside, in order of name. Where an offered and an installed package share
    /// a name, the offered one is listed.
    pub fn search_packages(&self, query: &str) -> (r: Vec<Package>)
        requires
            self.wf(),
        ensures
            sorted_by_name(views(r@)),
            forall|pv: PackageView| #[trigger] views(r@).contains(pv) <==> search_hit(
                self.available_map(),
                self.installed_map(),
                query@,
                pv,
            ),
    {
        let query_lower = lowercase(query);
        let ghost q = query@;
        let ghost sa = views(self.available@);
        let ghost si = views(self.installed@);
        let mut results: Vec<Package> = Vec::new();
        let mut i: usize = 0;
        while i < self.available.len()
            invariant
                self.wf(),
                sa == views(self.available@),
                query_lower@ == lower_of(q),
                i <= self.available@.len(),
                sorted_by_name(views(results@)),
                forall|j: int, k: int| 0 <= j < results@.len() && i <= k < sa.len() ==> lex_lt(#[trigger] views(results@)[j].name, #[trigger] sa[k].name),
                forall|pv: PackageView| #[trigger] views(results@).contains(pv) <==> (sa.subrange(0, i as int).contains(pv) && package_matches(pv, q)),
            decreases self.available@.len() - i,
        {
            let p = &self.available[i];
            let name_lower = lowercase(p.name.as_str());
            let description_lower = lowercase(p.description.as_str());
            let ghost before = views(results@);
            proof {
                assert(sa[i as int] == p@);
            }
            if matches_lowered(name_lower.as_str(), description_lower.as_str(), query_lower.as_str()) {
                results.push(p.duplicate());
                proof {
                    assert(views(results@) =~= before.push(sa[i as int]));
                    assert forall|j: int, k: int| 0 <= j < results@.len() && i + 1 <= k < sa.len() implies lex_lt(#[trigger] views(results@)[j].name, #[trigger] sa[k].name) by {
                        if j < before.len() {
                            lemma_lex_transitive(before[j].name, sa[i as int].name, sa[k].name);
                        }
                    }
                }
            }
            proof {
                let a0 = sa.subrange(0, i as int);
                assert(sa.subrange(0, (i + 1) as int) =~= a0.push(sa[i as int]));
                lemma_push_contains(a0, sa[i as int]);
                lemma_push_contains(before, sa[i as int]);
            }
            i = i + 1;
        }
        let ghost a0 = views(results@);
        proof {
            assert(sa.subrange(0, sa.len() as int) =~= sa);
            lemma_contains_iff_mapped(sa);
            lemma_to_map_all(sa);
            lemma_to_map_all(a0);
            assert forall|pv: PackageView| #[trigger] a0.contains(pv) <==> offered_hit(self.available_map(), q, pv) by {
                assert(sa.contains(pv) <==> (self.available_map().contains_key(pv.name) && self.available_map()[pv.name] == pv));
            }
            assert forall|n: Seq<char>| #[trigger] has_name(a0, n) <==> (self.available_map().contains_key(n) && package_matches(self.available_map()[n], q)) by {
                if has_name(a0, n) {
                    let k = choose|k: int| 0 <= k < a0.len() && #[trigger] a0[k].name == n;
                    assert(a0.contains(a0[k]));
                }
                if self.available_map().contains_key(n) && package_matches(self.available_map()[n], q) {
                    let pv = self.available_map()[n];
                    assert(offered_hit(self.available_map(), q, pv));
                    assert(a0.contains(pv));
                    let k = choose|k: int| 0 <= k < a0.len() && a0[k] == pv;
                    assert(a0[k].name == n);
                }
            }
        }
        let mut j: usize = 0;
        while j < self.installed.len()
            invariant
                self.wf(),
                si == views(self.installed@),
                query_lower@ == lower_of(q),
                j <= self.installed@.len(),
                sorted_by_name(views(results@)),
                forall|pv: PackageView| #[trigger] views(results@).contains(pv) <==> (a0.contains(pv) || (si.subrange(0, j as int).contains(pv) && package_matches(pv, q) && !has_name(a0, pv.name))),
            decreases self.installed@.len() - j,
        {
            let p = &self.installed[j];
            let name_lower = lowercase(p.name.as_str());
            let description_lower = lowercase(p.description.as_str());
            let ghost before = views(results@);
            let ghost x = si[j as int];
            proof {
                assert(x == p@);
                let s0 = si.subrange(0, j as int);
                assert(si.subrange(0, (j + 1) as int) =~= s0.push(x));
                lemma_push_contains(s0, x);
                if s0.contains(x) {
                    let k = choose|k: int| 0 <= k < s0.len() && s0[k] == x;
                    assert(si[k] == x);
                    lemma_lex_irreflexive(x.name);
                    assert(lex_lt(si[k].name, si[j as int].name));
                }
                assert(has_name(before, x.name) <==> has_name(a0, x.name)) by {
                    if has_name(a0, x.name) {
                        let k = choose|k: int| 0 <= k < a0.len() && #[trigger] a0[k].name == x.name;
                        assert(before.contains(a0[k]));
                        let k2 = choose|k2: int| 0 <= k2 < before.len() && before[k2] == a0[k];
                        assert(before[k2].name == x.name);
                    }
                    if has_name(before, x.name) {
                        let k = choose|k: int| 0 <= k < before.len() && #[trigger] before[k].name == x.name;
                        assert(before.contains(before[k]));
                        if !a0.contains(before[k]) {
                            let k2 = choose|k2: int| 0 <= k2 < s0.len() && s0[k2] == before[k];
                            assert(si[k2].name == x.name);
                            lemma_lex_irreflexive(x.name);
                            assert(lex_lt(si[k2].name, si[j as int].name));
                        } else {
                            let k2 = choose|k2: int| 0 <= k2 < a0.len() && a0[k2] == before[k];
                            assert(a0[k2].name == x.name);
                        }
                    }
                }
            }
            if matches_lowered(name_lower.as_str(), description_lower.as_str(), query_lower.as_str()) {
                let found = find(&results, p.name.as_str());
                if let Some(k) = found {
                    proof {
                        assert(before[k as int] == results@[k as int]@);
                        assert(results@[k as int].name@ == p.name@);
                        assert(before[k as int].name == x.name);
                        assert(has_name(before, x.name));
                    }
                } else {
                    upsert(&mut results, p.duplicate());
                    proof {
                        let after = views(results@);
                        lemma_contains_iff_mapped(before);
                        lemma_contains_iff_mapped(after);
                        lemma_to_map_all(before);
                        assert forall|pv: PackageView| #[trigger] after.contains(pv) <==> (before.contains(pv) || pv == x) by {
                            if before.contains(pv) {
                                let k = choose|k: int| 0 <= k < before.len() && before[k] == pv;
                                assert(before[k].name == pv.name);
                            }
                        }
                    }
                }
            }
            proof {
                let s1 = si.subrange(0, (j + 1) as int);
                assert forall|pv: PackageView| #[trigger] views(results@).contains(pv) <==> (a0.contains(pv) || (s1.contains(pv) && package_matches(pv, q) && !has_name(a0, pv.name))) by {
                    if pv != x {
                        assert(views(results@).contains(pv) <==> before.contains(pv));
                        assert(s1.contains(pv) <==> si.subrange(0, j as int).contains(pv));
                    }
                }
            }
            j = j + 1;
        }
        proof {
            assert(si.subrange(0, si.len() as int) =~= si);
            lemma_contains_iff_mapped(si);
        }
        results
    }

    /// A database holding the given records, each keyed by its name; where
    /// nothing is offered, the default packages are.
    pub fn from_records(installed: Vec<Package>, available: Vec<Package>) -> (r: PackageDatabase)
        ensures
            r.wf(),
            r.installed_map() == insert_records(Map::empty(), views(installed@)),
            r.available_map() == if available@.len() == 0 {
                insert_entries(Map::empty(), default_entries())
            } else {
                insert_records(Map::empty(), views(available@))
            },
    {
        let offered = available.len() != 0;
        let mut db = PackageDatabase { installed: Vec::new(), available: Vec::new() };
        proof {
            assert(to_map(views(db.installed@)) =~= Map::<Seq<char>, PackageView>::empty());
            assert(to_map(views(db.available@)) =~= Map::<Seq<char>, PackageView>::empty());
        }
        db.installed = sorted_catalog(installed);
        db.available = sorted_catalog(available);
        if !offered {
            db.populate_available_packages();
        }
        db
    }

    /// The installed packages in order of name.
    pub fn installed_packages(&self) -> (r: Vec<Package>)
        requires
            self.wf(),
        ensures
            sorted_by_name(views(r@)),
            to_map(views(r@)) == self.installed_map(),
    {
        copy_catalog(&self.installed)
    }

    /// The offered packages in order of name.
    pub fn available_packages(&self) -> (r: Vec<Package>)
        requires
            self.wf(),
        ensures
            sorted_by_name(views(r@)),
            to_map(views(r@)) == self.available_map(),
    {
        copy_catalog(&self.available)
    }

    /// The table line of an offered or found package, marked where a package
    /// of its name is installed.
    pub fn listing_row(&self, p: &Package) -> (r: String)
        requires
            self.wf(),
        ensures
            r@ == table_row(
                p.name@,
                p.version@,
                p.description@ + if self.installed_map().contains_key(p.name@) {
                    installed_mark()
                } else {
                    Seq::empty()
                },
            ),
    {
        let mut rest = p.description.clone();
        if self.is_installed(p.name.as_str()) {
            rest.append(" [УСТАНОВЛЕН]");
        } else {
            assert(rest@ + Seq::empty() =~= rest@);
        }
        table_line(p.name.as_str(), p.version.as_str(), rest.as_str())
    }

    pub fn is_installed(&self, name: &str) -> (r: bool)
        requires
            self.wf(),
        ensures
            r == self.installed_map().contains_key(name@),
    {
        proof {
            lemma_to_map_all(views(self.installed@));
        }
        match find(&self.installed, name) {
            Some(i) => {
                proof {
                    assert(views(self.installed@)[i as int] == self.installed@[i as int]@);
                    lemma_to_map_entry(views(self.installed@), i as int);
                }
                true
            },
            None => false,
        }
    }

    pub fn is_available(&self, name: &str) -> (r: bool)
        requires
            self.wf(),
        ensures
            r == self.available_map().contains_key(name@),
    {
        proof {
            lemma_to_map_all(views(self.available@));
        }
        match find(&self.available, name) {
            Some(i) => {
                proof {
                    assert(views(self.available@)[i as int] == self.available@[i as int]@);
                    lemma_to_map_entry(views(self.available@), i as int);
                }
                true
            },
            None => false,
        }
    }

    /// The installed record named `name`.
    pub fn get_installed(&self, name: &str) -> (r: Option<Package>)
        requires
            self.wf(),
        ensures
            r is Some <==> self.installed_map().contains_key(name@),
            r matches Some(p) ==> p@ == self.installed_map()[name@],
    {
        proof {
            lemma_to_map_all(views(self.installed@));
        }
        match find(&self.installed, name) {
            Some(i) => {
                proof {
                    assert(views(self.installed@)[i as int] == self.installed@[i as int]@);
                    lemma_to_map_entry(views(self.installed@), i as int);
                }
                Some(self.installed[i].duplicate())
            },
            None => None,
        }
    }

    /// The offered record named `name`.
    pub fn get_available(&self, name: &str) -> (r: Option<Package>)
        requires
            self.wf(),
        ensures
            r is Some <==> self.available_map().contains_key(name@),
            r matches Some(p) ==> p@ == self.available_map()[name@],
    {
        proof {
            lemma_to_map_all(views(self.available@));
        }
        match find(&self.available, name) {
            Some(i) => {
                proof {
                    assert(views(self.available@)[i as int] == self.available@[i as int]@);
                    lemma_to_map_entry(views(self.available@), i as int);
                }
                Some(self.available[i].duplicate())
            },
            None => None,
        }
    }

    pub fn installed_is_empty(&self) -> (r: bool)
        requires
            self.wf(),
        ensures
            r == (self.installed_map() == Map::<Seq<char>, PackageView>::empty()),
    {
        proof {
            lemma_to_map_all(views(self.installed@));
            if self.installed@.len() > 0 {
                assert(self.installed_map().contains_key(views(self.installed@)[0].name));
            } else {
                assert(self.installed_map() =~= Map::<Seq<char>, PackageView>::empty());
            }
        }
        self.installed.len() == 0
    }

    pub fn available_is_empty(&self) -> (r: bool)
        requires
            self.wf(),
        ensures
            r == (self.available_map() == Map::<Seq<char>, PackageView>::empty()),
    {
        proof {
            lemma_to_map_all(views(self.available@));
            if self.available@.len() > 0 {
                assert(self.available_map().contains_key(views(self.available@)[0].name));
            } else {
                assert(self.available_map() =~= Map::<Seq<char>, PackageView>::empty());
            }
        }
        self.available.len() == 0
    }
}

} // verus!
