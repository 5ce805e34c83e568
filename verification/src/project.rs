//! Project records and the root-resolution algorithm: walking a path's
//! ancestors nearest-first and matching their directory entries against a
//! fixed catalog of marker names.

use vstd::prelude::*;

verus! {

/// Mathematical value of a [`Project`]: every text field as a sequence of
/// characters, the priority as an unbounded integer.
pub ghost struct ProjectModel {
    pub name: Seq<char>,
    pub path: Seq<char>,
    pub kind: Seq<char>,
    pub description: Seq<char>,
    pub priority: int,
}

/// One discovered or remembered project.
pub struct Project {
    pub name: String,
    pub path: String,
    pub kind: String,
    pub description: String,
    pub priority: i32,
}

impl View for Project {
    type V = ProjectModel;

    open spec fn view(&self) -> ProjectModel {
        ProjectModel {
            name: self.name@,
            path: self.path@,
            kind: self.kind@,
            description: self.description@,
            priority: self.priority as int,
        }
    }
}

/// Index of the last `/` in `path`, or `-1` if there is none.
pub open spec fn last_slash(path: Seq<char>) -> int
    decreases path.len(),
{
    if path.len() == 0 {
        -1
    } else if path.last() == '/' {
        path.len() - 1
    } else {
        last_slash(path.drop_last())
    }
}

/// The final segment of a path: everything after the last `/`, or the whole
/// string if it has no `/`. The root path `/` has the empty name.
pub open spec fn name_of(path: Seq<char>) -> Seq<char> {
    path.skip(last_slash(path) + 1)
}

/// The last slash, if any, lies inside the path.
pub proof fn lemma_last_slash_bounds(path: Seq<char>)
    ensures
        -1 <= last_slash(path) < path.len(),
    decreases path.len(),
{
    if path.len() == 0 {
    } else if path.last() == '/' {
    } else {
        lemma_last_slash_bounds(path.drop_last());
    }
}

/// A path's final segment is no longer than the path.
pub proof fn lemma_name_of_len(path: Seq<char>)
    ensures
        name_of(path).len() <= path.len(),
{
    lemma_last_slash_bounds(path);
}

proof fn lemma_last_slash_at(path: Seq<char>, i: int)
    requires
        0 <= i <= path.len(),
        forall|k: int| i <= k < path.len() ==> path[k] != '/',
        i > 0 ==> path[i - 1] == '/',
    ensures
        last_slash(path) == i - 1,
    decreases path.len(),
{
    if path.len() == 0 {
    } else if i == path.len() {
    } else {
        assert(path.last() != '/');
        lemma_last_slash_at(path.drop_last(), i);
    }
}

impl Project {
    /// A fresh record: the given display name and path, no classification,
    /// no description, priority zero.
    pub fn new(name: &str, path: &str) -> (p: Project)
        ensures
            p@ == (ProjectModel {
                name: name@,
                path: path@,
                kind: Seq::<char>::empty(),
                description: Seq::<char>::empty(),
                priority: 0,
            }),
    {
        let p = Project {
            name: name.to_owned(),
            path: path.to_owned(),
            kind: String::new(),
            description: String::new(),
            priority: 0,
        };
        p
    }

    /// An owned copy with the same mathematical value.
    pub fn duplicate(&self) -> (r: Project)
        ensures
            r@ == self@,
    {
        Project {
            name: self.name.clone(),
            path: self.path.clone(),
            kind: self.kind.clone(),
            description: self.description.clone(),
            priority: self.priority,
        }
    }
}

/// Mathematical value of a [`KindEntry`].
pub ghost struct KindModel {
    pub kind: Seq<char>,
    pub markers: Seq<Seq<char>>,
}

/// One classification: a kind label and the marker names that witness it.
pub struct KindEntry {
    pub kind: String,
    pub markers: Vec<String>,
}

impl View for KindEntry {
    type V = KindModel;

    open spec fn view(&self) -> KindModel {
        KindModel { kind: self.kind@, markers: strs_view(self.markers@) }
    }
}

/// The character sequences of a sequence of strings.
pub open spec fn strs_view(s: Seq<String>) -> Seq<Seq<char>> {
    s.map_values(|x: String| x@)
}

/// The language/build-system tier of the marker catalog.
pub open spec fn spec_language_tier() -> Seq<KindModel> {
    seq![
        (KindModel {
            kind: "c"@,
            markers: seq![
                "compile_commands.json"@,
                "compile_flags.txt"@,
                "Makefile"@,
                "configure.ac"@,
                "configure.in"@,
                "cscope.out"@,
                "GTAGS"@,
                "TAGS"@,
            ],
        }),
        (KindModel {
            kind: "cpp"@,
            markers: seq![
                "compile_commands.json"@,
                "compile_flags.txt"@,
                "Makefile"@,
                ".clangd"@,
                ".ccls-cache"@,
            ],
        }),
        (KindModel {
            kind: "python"@,
            markers: seq![
                "pyproject.toml"@,
                "requirements.txt"@,
                "setup.py"@,
                "tox.ini"@,
                ".tox"@,
                "pyrightconfig.json"@,
            ],
        }),
        (KindModel {
            kind: "nodejs"@,
            markers: seq![
                "package.json"@,
                "yarn.lock"@,
                "pnpm-lock.yaml"@,
                "webpack.config.js"@,
                "rollup.config.js"@,
                "vite.config.js"@,
            ],
        }),
        (KindModel { kind: "go"@, markers: seq!["go.mod"@, "go.sum"@] }),
        (KindModel { kind: "rust"@, markers: seq!["Cargo.toml"@, "Cargo.lock"@] }),
        (KindModel {
            kind: "java"@,
            markers: seq![
                "pom.xml"@,
                "build.gradle"@,
                "build.gradle.kts"@,
                ".classpath"@,
                ".project"@,
            ],
        }),
        (KindModel {
            kind: "haskell"@,
            markers: seq!["stack.yaml"@, "cabal.config"@, "package.yaml"@, "hie-bios"@],
        }),
        (KindModel { kind: "dart"@, markers: seq!["pubspec.yaml"@] }),
        (KindModel { kind: "ruby"@, markers: seq!["Gemfile"@, "Gemfile.lock"@] }),
        (KindModel { kind: "php"@, markers: seq!["composer.json"@, "composer.lock"@] }),
        (KindModel { kind: "docker"@, markers: seq!["Dockerfile"@, "docker-compose.yml"@] }),
        (KindModel { kind: "elm"@, markers: seq!["elm.json"@] }),
        (KindModel { kind: "fortran"@, markers: seq!["fortls"@] }),
        (KindModel { kind: "nix"@, markers: seq!["flake.nix"@, ".envrc"@] }),
        (KindModel { kind: "scala"@, markers: seq!["build.sbt"@, ".ensime_cache"@] }),
        (KindModel { kind: "vue"@, markers: seq!["vue.config.js"@] }),
        (KindModel { kind: "godot"@, markers: seq!["project.godot"@] }),
    ]
}

/// The version-control tier of the marker catalog.
pub open spec fn spec_vcs_tier() -> Seq<KindModel> {
    seq![
        (KindModel { kind: "git"@, markers: seq![".git"@, ".gitignore"@] }),
        (KindModel { kind: "svn"@, markers: seq![".svn"@] }),
        (KindModel { kind: "mercurial"@, markers: seq![".hg"@] }),
        (KindModel { kind: "bazaar"@, markers: seq![".bzr"@] }),
        (KindModel { kind: "fossil"@, markers: seq!["_FOSSIL_"@, ".fslckout"@] }),
        (KindModel { kind: "pijul"@, markers: seq![".pijul"@] }),
    ]
}

/// The miscellaneous/editor/cache tier of the marker catalog.
pub open spec fn spec_misc_tier() -> Seq<KindModel> {
    seq![
        (KindModel { kind: "editor"@, markers: seq![".idea"@, ".vscode"@] }),
        (KindModel { kind: "ocaml"@, markers: seq![".merlin"@] }),
        (KindModel { kind: "erlang"@, markers: seq![".eunit"@] }),
        (KindModel { kind: "make"@, markers: seq!["Makefile"@] }),
        (KindModel { kind: "metals"@, markers: seq!["metals.sbt"@, "build.sc"@] }),
        (KindModel { kind: "environment"@, markers: seq![".env"@, ".envrc"@] }),
        (KindModel { kind: "cache"@, markers: seq![".cache"@] }),
    ]
}

/// The whole catalog: tiers in the order they are consulted.
pub open spec fn spec_catalog() -> Seq<Seq<KindModel>> {
    seq![spec_language_tier(), spec_vcs_tier(), spec_misc_tier()]
}

/// Does any marker of this kind occur among the directory entries?
pub open spec fn kind_matches(entries: Seq<Seq<char>>, markers: Seq<Seq<char>>) -> bool {
    exists|j: int| 0 <= j < markers.len() && entries.contains(markers[j])
}

/// The kind of the first entry of `tier` with a marker among `entries`.
pub open spec fn classify_tier(entries: Seq<Seq<char>>, tier: Seq<KindModel>) -> Option<Seq<char>>
    decreases tier.len(),
{
    if tier.len() == 0 {
        None
    } else if kind_matches(entries, tier[0].markers) {
        Some(tier[0].kind)
    } else {
        classify_tier(entries, tier.drop_first())
    }
}

/// The kind of the first matching entry of the first matching tier.
pub open spec fn classify_in(entries: Seq<Seq<char>>, tiers: Seq<Seq<KindModel>>) -> Option<
    Seq<char>,
>
    decreases tiers.len(),
{
    if tiers.len() == 0 {
        None
    } else {
        match classify_tier(entries, tiers[0]) {
            Some(k) => Some(k),
            None => classify_in(entries, tiers.drop_first()),
        }
    }
}

/// What a directory with the given entries is classified as.
pub open spec fn spec_classify(entries: Seq<Seq<char>>) -> Option<Seq<char>> {
    classify_in(entries, spec_catalog())
}

/// The models of a sequence of catalog entries.
pub open spec fn tier_view(t: Seq<KindEntry>) -> Seq<KindModel> {
    t.map_values(|e: KindEntry| e@)
}

/// The models of a sequence of catalog tiers.
pub open spec fn catalog_view(c: Seq<Vec<KindEntry>>) -> Seq<Seq<KindModel>> {
    c.map_values(|t: Vec<KindEntry>| tier_view(t@))
}

fn entry1(kind: &str, m1: &str) -> (e: KindEntry)
    ensures
        e@ == (KindModel { kind: kind@, markers: seq![m1@] }),
{
    let mut ms: Vec<String> = Vec::new();
    ms.push(m1.to_owned());
    let e = KindEntry { kind: kind.to_owned(), markers: ms };
    proof {
        assert(e@.markers =~= seq![m1@]);
    }
    e
}

fn entry2(kind: &str, m1: &str, m2: &str) -> (e: KindEntry)
    ensures
        e@ == (KindModel { kind: kind@, markers: seq![m1@, m2@] }),
{
    let mut ms: Vec<String> = Vec::new();
    ms.push(m1.to_owned());
    ms.push(m2.to_owned());
    let e = KindEntry { kind: kind.to_owned(), markers: ms };
    proof {
        assert(e@.markers =~= seq![m1@, m2@]);
    }
    e
}

fn entry4(kind: &str, m1: &str, m2: &str, m3: &str, m4: &str) -> (e: KindEntry)
    ensures
        e@ == (KindModel { kind: kind@, markers: seq![m1@, m2@, m3@, m4@] }),
{
    let mut ms: Vec<String> = Vec::new();
    ms.push(m1.to_owned());
    ms.push(m2.to_owned());
    ms.push(m3.to_owned());
    ms.push(m4.to_owned());
    let e = KindEntry { kind: kind.to_owned(), markers: ms };
    proof {
        assert(e@.markers =~= seq![m1@, m2@, m3@, m4@]);
    }
    e
}

fn entry5(kind: &str, m1: &str, m2: &str, m3: &str, m4: &str, m5: &str) -> (e: KindEntry)
    ensures
        e@ == (KindModel { kind: kind@, markers: seq![m1@, m2@, m3@, m4@, m5@] }),
{
    let mut ms: Vec<String> = Vec::new();
    ms.push(m1.to_owned());
    ms.push(m2.to_owned());
    ms.push(m3.to_owned());
    ms.push(m4.to_owned());
    ms.push(m5.to_owned());
    let e = KindEntry { kind: kind.to_owned(), markers: ms };
    proof {
        assert(e@.markers =~= seq![m1@, m2@, m3@, m4@, m5@]);
    }
    e
}

fn entry6(kind: &str, m1: &str, m2: &str, m3: &str, m4: &str, m5: &str, m6: &str) -> (e:
    KindEntry)
    ensures
        e@ == (KindModel { kind: kind@, markers: seq![m1@, m2@, m3@, m4@, m5@, m6@] }),
{
    let mut ms: Vec<String> = Vec::new();
    ms.push(m1.to_owned());
    ms.push(m2.to_owned());
    ms.push(m3.to_owned());
    ms.push(m4.to_owned());
    ms.push(m5.to_owned());
    ms.push(m6.to_owned());
    let e = KindEntry { kind: kind.to_owned(), markers: ms };
    proof {
        assert(e@.markers =~= seq![m1@, m2@, m3@, m4@, m5@, m6@]);
    }
    e
}

fn entry8(
    kind: &str,
    m1: &str,
    m2: &str,
    m3: &str,
    m4: &str,
    m5: &str,
    m6: &str,
    m7: &str,
    m8: &str,
) -> (e: KindEntry)
    ensures
        e@ == (KindModel { kind: kind@, markers: seq![m1@, m2@, m3@, m4@, m5@, m6@, m7@, m8@] }),
{
    let mut ms: Vec<String> = Vec::new();
    ms.push(m1.to_owned());
    ms.push(m2.to_owned());
    ms.push(m3.to_owned());
    ms.push(m4.to_owned());
    ms.push(m5.to_owned());
    ms.push(m6.to_owned());
    ms.push(m7.to_owned());
    ms.push(m8.to_owned());
    let e = KindEntry { kind: kind.to_owned(), markers: ms };
    proof {
        assert(e@.markers =~= seq![m1@, m2@, m3@, m4@, m5@, m6@, m7@, m8@]);
    }
    e
}

fn language_tier() -> (t: Vec<KindEntry>)
    ensures
        tier_view(t@) == spec_language_tier(),
{
    let mut t: Vec<KindEntry> = Vec::new();
    t.push(
        entry8(
            "c",
            "compile_commands.json",
            "compile_flags.txt",
            "Makefile",
            "configure.ac",
            "configure.in",
            "cscope.out",
            "GTAGS",
            "TAGS",
        ),
    );
    t.push(
        entry5("cpp", "compile_commands.json", "compile_flags.txt", "Makefile", ".clangd", ".ccls-cache"),
    );
    t.push(
        entry6(
            "python",
            "pyproject.toml",
            "requirements.txt",
            "setup.py",
            "tox.ini",
            ".tox",
            "pyrightconfig.json",
        ),
    );
    t.push(
        entry6(
            "nodejs",
            "package.json",
            "yarn.lock",
            "pnpm-lock.yaml",
            "webpack.config.js",
            "rollup.config.js",
            "vite.config.js",
        ),
    );
    t.push(entry2("go", "go.mod", "go.sum"));
    t.push(entry2("rust", "Cargo.toml", "Cargo.lock"));
    t.push(entry5("java", "pom.xml", "build.gradle", "build.gradle.kts", ".classpath", ".project"));
    t.push(entry4("haskell", "stack.yaml", "cabal.config", "package.yaml", "hie-bios"));
    t.push(entry1("dart", "pubspec.yaml"));
    t.push(entry2("ruby", "Gemfile", "Gemfile.lock"));
    t.push(entry2("php", "composer.json", "composer.lock"));
    t.push(entry2("docker", "Dockerfile", "docker-compose.yml"));
    t.push(entry1("elm", "elm.json"));
    t.push(entry1("fortran", "fortls"));
    t.push(entry2("nix", "flake.nix", ".envrc"));
    t.push(entry2("scala", "build.sbt", ".ensime_cache"));
    t.push(entry1("vue", "vue.config.js"));
    t.push(entry1("godot", "project.godot"));
    proof {
        assert(tier_view(t@) =~= spec_language_tier());
    }
    t
}

fn vcs_tier() -> (t: Vec<KindEntry>)
    ensures
        tier_view(t@) == spec_vcs_tier(),
{
    let mut t: Vec<KindEntry> = Vec::new();
    t.push(entry2("git", ".git", ".gitignore"));
    t.push(entry1("svn", ".svn"));
    t.push(entry1("mercurial", ".hg"));
    t.push(entry1("bazaar", ".bzr"));
    t.push(entry2("fossil", "_FOSSIL_", ".fslckout"));
    t.push(entry1("pijul", ".pijul"));
    proof {
        assert(tier_view(t@) =~= spec_vcs_tier());
    }
    t
}

fn misc_tier() -> (t: Vec<KindEntry>)
    ensures
        tier_view(t@) == spec_misc_tier(),
{
    let mut t: Vec<KindEntry> = Vec::new();
    t.push(entry2("editor", ".idea", ".vscode"));
    t.push(entry1("ocaml", ".merlin"));
    t.push(entry1("erlang", ".eunit"));
    t.push(entry1("make", "Makefile"));
    t.push(entry2("metals", "metals.sbt", "build.sc"));
    t.push(entry2("environment", ".env", ".envrc"));
    t.push(entry1("cache", ".cache"));
    proof {
        assert(tier_view(t@) =~= spec_misc_tier());
    }
    t
}

/// The marker catalog as data: the three tiers in consultation order.
pub fn catalog() -> (c: Vec<Vec<KindEntry>>)
    ensures
        catalog_view(c@) == spec_catalog(),
{
    let mut c: Vec<Vec<KindEntry>> = Vec::new();
    c.push(language_tier());
    c.push(vcs_tier());
    c.push(misc_tier());
    proof {
        assert(catalog_view(c@) =~= spec_catalog());
    }
    c
}

pub(crate) fn contains_string(entries: &Vec<String>, m: &String) -> (r: bool)
    ensures
        r == strs_view(entries@).contains(m@),
{
    let n = entries.len();
    let mut i: usize = 0;
    while i < n
        invariant
            n == entries@.len(),
            0 <= i <= n,
            forall|k: int| 0 <= k < i ==> strs_view(entries@)[k] != m@,
        decreases n - i,
    {
        if entries[i].eq(m) {
            assert(strs_view(entries@)[i as int] == m@);
            return true;
        }
        i = i + 1;
    }
    false
}

fn entry_matches(entries: &Vec<String>, e: &KindEntry) -> (r: bool)
    ensures
        r == kind_matches(strs_view(entries@), e@.markers),
{
    let n = e.markers.len();
    let mut j: usize = 0;
    while j < n
        invariant
            n == e.markers@.len(),
            0 <= j <= n,
            forall|k: int| 0 <= k < j ==> !strs_view(entries@).contains(e@.markers[k]),
        decreases n - j,
    {
        if contains_string(entries, &e.markers[j]) {
            assert(e@.markers[j as int] == e.markers@[j as int]@);
            return true;
        }
        j = j + 1;
    }
    false
}

/// The kind a directory with the given entries belongs to, if any:
/// the first matching kind of the first matching tier of the catalog.
pub fn classify_entries(entries: &Vec<String>) -> (r: Option<String>)
    ensures
        match r {
            Some(k) => spec_classify(strs_view(entries@)) == Some(k@),
            None => spec_classify(strs_view(entries@)) is None,
        },
{
    let ghost ev = strs_view(entries@);
    let cat = catalog();
    let nt = cat.len();
    proof {
        assert(spec_catalog().skip(0) =~= spec_catalog());
    }
    let mut ti: usize = 0;
    while ti < nt
        invariant
            catalog_view(cat@) == spec_catalog(),
            nt == cat@.len(),
            0 <= ti <= nt,
            ev == strs_view(entries@),
            classify_in(ev, spec_catalog()) == classify_in(ev, spec_catalog().skip(ti as int)),
        decreases nt - ti,
    {
        let tier = &cat[ti];
        let ghost tv = tier_view(tier@);
        proof {
            assert(tv == spec_catalog()[ti as int]);
            assert(spec_catalog().skip(ti as int)[0] == tv);
        }
        let nk = tier.len();
        proof {
            assert(tv.skip(0) =~= tv);
        }
        let mut ki: usize = 0;
        while ki < nk
            invariant
                nk == tier@.len(),
                0 <= ki <= nk,
                tv == tier_view(tier@),
                ev == strs_view(entries@),
                classify_tier(ev, tv) == classify_tier(ev, tv.skip(ki as int)),
                catalog_view(cat@) == spec_catalog(),
                nt == cat@.len(),
                0 <= ti < nt,
                tv == spec_catalog()[ti as int],
                classify_in(ev, spec_catalog()) == classify_in(ev, spec_catalog().skip(ti as int)),
            decreases nk - ki,
        {
            if entry_matches(entries, &tier[ki]) {
                proof {
                    assert(tv.skip(ki as int)[0] == tv[ki as int]);
                    assert(tv[ki as int] == tier@[ki as int]@);
                    assert(tv.skip(ki as int).len() > 0);
                    assert(kind_matches(ev, tv.skip(ki as int)[0].markers));
                    assert(classify_tier(ev, tv.skip(ki as int)) == Some(tv[ki as int].kind));
                    assert(classify_tier(ev, tv) == Some(tv[ki as int].kind));
                    assert(spec_catalog().skip(ti as int).len() > 0);
                    assert(classify_in(ev, spec_catalog().skip(ti as int)) == Some(
                        tv[ki as int].kind,
                    ));
                    assert(spec_classify(ev) == Some(tv[ki as int].kind));
                }
                let k = tier[ki].kind.clone();
                return Some(k);
            }
            proof {
                assert(tv.skip(ki as int)[0] == tv[ki as int]);
                assert(tv[ki as int] == tier@[ki as int]@);
                assert(tv.skip(ki as int).drop_first() =~= tv.skip(ki as int + 1));
            }
            ki = ki + 1;
        }
        proof {
            assert(tv.skip(nk as int) =~= Seq::<KindModel>::empty());
            assert(classify_tier(ev, tv) is None);
            assert(spec_catalog().skip(ti as int).drop_first() =~= spec_catalog().skip(
                ti as int + 1,
            ));
        }
        ti = ti + 1;
    }
    proof {
        assert(spec_catalog().skip(nt as int) =~= Seq::<Seq<KindModel>>::empty());
    }
    None
}

proof fn lemma_classify_tier_hit(entries: Seq<Seq<char>>, tier: Seq<KindModel>)
    requires
        exists|i: int| 0 <= i < tier.len() && #[trigger] kind_matches(entries, tier[i].markers),
    ensures
        exists|i: int|
            0 <= i < tier.len() && classify_tier(entries, tier) == Some(#[trigger] tier[i].kind),
    decreases tier.len(),
{
    if kind_matches(entries, tier[0].markers) {
        assert(classify_tier(entries, tier) == Some(tier[0].kind));
    } else {
        let w = choose|i: int|
            0 <= i < tier.len() && #[trigger] kind_matches(entries, tier[i].markers);
        assert(tier.drop_first()[w - 1] == tier[w]);
        assert(kind_matches(entries, tier.drop_first()[w - 1].markers));
        lemma_classify_tier_hit(entries, tier.drop_first());
        let j = choose|i: int|
            0 <= i < tier.drop_first().len() && classify_tier(entries, tier.drop_first()) == Some(
                #[trigger] tier.drop_first()[i].kind,
            );
        assert(tier[j + 1].kind == tier.drop_first()[j].kind);
        assert(classify_tier(entries, tier) == Some(tier[j + 1].kind));
    }
}

/// Law: whenever a directory holds any marker of the language tier, its
/// classification comes from the language tier — a version-control or
/// miscellaneous marker beside it never decides the kind.
pub proof fn lemma_language_tier_precedence(entries: Seq<Seq<char>>)
    requires
        exists|i: int|
            0 <= i < spec_language_tier().len() && #[trigger] kind_matches(
                entries,
                spec_language_tier()[i].markers,
            ),
    ensures
        exists|i: int|
            0 <= i < spec_language_tier().len() && spec_classify(entries) == Some(
                #[trigger] spec_language_tier()[i].kind,
            ),
{
    lemma_classify_tier_hit(entries, spec_language_tier());
    assert(spec_catalog()[0] == spec_language_tier());
    let j = choose|i: int|
        0 <= i < spec_language_tier().len() && classify_tier(entries, spec_language_tier())
            == Some(#[trigger] spec_language_tier()[i].kind);
    assert(spec_classify(entries) == Some(spec_language_tier()[j].kind));
}

/// Mathematical value of a [`DirListing`].
pub ghost struct DirListingModel {
    pub path: Seq<char>,
    pub entries: Seq<Seq<char>>,
}

/// One ancestor directory offered to the resolver: its path and the names of
/// its direct entries. An unreadable directory contributes no entries.
pub struct DirListing {
    pub path: String,
    pub entries: Vec<String>,
}

impl View for DirListing {
    type V = DirListingModel;

    open spec fn view(&self) -> DirListingModel {
        DirListingModel { path: self.path@, entries: strs_view(self.entries@) }
    }
}

/// The models of a sequence of directory listings.
pub open spec fn dirs_view(s: Seq<DirListing>) -> Seq<DirListingModel> {
    s.map_values(|d: DirListing| d@)
}

/// The first ancestor, nearest first, whose entries classify, together with
/// the kind it classifies as.
pub open spec fn walk(ancestors: Seq<DirListingModel>) -> Option<(Seq<char>, Seq<char>)>
    decreases ancestors.len(),
{
    if ancestors.len() == 0 {
        None
    } else {
        match spec_classify(ancestors[0].entries) {
            Some(k) => Some((ancestors[0].path, k)),
            None => walk(ancestors.drop_first()),
        }
    }
}

impl Project {
    /// Walks the given ancestor listings nearest-first; on the first
    /// directory that classifies, takes its path and kind. Without a match
    /// the record is left as it was.
    pub fn find_project(&mut self, ancestors: &Vec<DirListing>)
        ensures
            match walk(dirs_view(ancestors@)) {
                Some(hit) => final(self)@ == (ProjectModel {
                    path: hit.0,
                    kind: hit.1,
                    ..old(self)@
                }),
                None => final(self)@ == old(self)@,
            },
    {
        let ghost av = dirs_view(ancestors@);
        let n = ancestors.len();
        proof {
            assert(av.skip(0) =~= av);
        }
        let mut i: usize = 0;
        while i < n
            invariant
                n == ancestors@.len(),
                0 <= i <= n,
                av == dirs_view(ancestors@),
                walk(av) == walk(av.skip(i as int)),
                *self == *old(self),
            decreases n - i,
        {
            proof {
                assert(av.skip(i as int)[0] == av[i as int]);
                assert(av[i as int] == ancestors@[i as int]@);
            }
            let listing = &ancestors[i];
            match classify_entries(&listing.entries) {
                Some(kind) => {
                    self.path = listing.path.clone();
                    self.kind = kind;
                    return ;
                },
                None => {
                    proof {
                        assert(av.skip(i as int).drop_first() =~= av.skip(i as int + 1));
                    }
                },
            }
            i = i + 1;
        }
        proof {
            assert(av.skip(n as int) =~= Seq::<DirListingModel>::empty());
        }
    }
}

/// Resolves a starting directory against its ancestor listings: the result
/// is named after the final segment of `start`, and points at the first
/// ancestor with a recognised marker, or at `start` itself, unclassified,
/// when nothing matches.
pub fn find_project_root(start: &str, ancestors: &Vec<DirListing>) -> (p: Project)
    ensures
        match walk(dirs_view(ancestors@)) {
            Some(hit) => p@ == (ProjectModel {
                name: name_of(start@),
                path: hit.0,
                kind: hit.1,
                description: Seq::<char>::empty(),
                priority: 0,
            }),
            None => p@ == (ProjectModel {
                name: name_of(start@),
                path: start@,
                kind: Seq::<char>::empty(),
                description: Seq::<char>::empty(),
                priority: 0,
            }),
        },
{
    let name = last_segment(start);
    let mut p = Project::new(name.as_str(), start);
    p.find_project(ancestors);
    p
}

/// The final path segment, as [`name_of`] describes it.
pub fn last_segment(path: &str) -> (r: String)
    ensures
        r@ == name_of(path@),
        path@.len() <= usize::MAX,
{
    let n = path.unicode_len();
    let mut i: usize = n;
    loop
        invariant
            0 <= i <= n,
            n == path@.len(),
            forall|k: int| i <= k < path@.len() ==> path@[k] != '/',
        ensures
            0 <= i <= n,
            forall|k: int| i <= k < path@.len() ==> path@[k] != '/',
            i > 0 ==> path@[i - 1] == '/',
        decreases i,
    {
        if i == 0 {
            break;
        }
        if path.get_char(i - 1) == '/' {
            break;
        }
        i = i - 1;
    }
    proof {
        lemma_last_slash_at(path@, i as int);
    }
    let seg = path.substring_char(i, n);
    seg.to_owned()
}

} // verus!
