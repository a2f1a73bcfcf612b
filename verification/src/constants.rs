//! Constants, and what is known of the build.
use vstd::prelude::*;

use crate::json::{
    distinct_keys, entries_of, object_view, text_value, valid, Json, Segment, Value,
};
use crate::json_path::{json_get, key_leads_to_its_entry};
use crate::text::{
    all_white, chars_of, is_white_space, optional_str, same_text, string_of, trim, trimmed,
    trimming_keeps_the_core,
};

verus! {

/// The largest request body: 100 MB, for media uploads and multipart forms
/// alike.
pub const MAX_UPLOAD_SIZE: u64 = 100 * 1024 * 1024;

/// The version of the package.
pub const PACKAGE_VERSION: &'static str = "0.1.0";

/// The name of the command where none is set.
pub const DEFAULT_BIN_NAME: &'static str = "wecom";

/// What is known of the build: sent with every request, and shown as the
/// version.
#[derive(Debug)]
pub struct CliInfo {
    /// The target platform, `os/arch`.
    pub platform: String,
    /// The time of the build, after RFC 3339.
    pub build_time: String,
    /// The short hash of the commit; empty for a build without one.
    pub commit_id: String,
    /// The version.
    pub version: String,
    /// The distribution channel.
    pub distribution: String,
}

/// What a build finds where it runs.
#[derive(Debug)]
pub struct Build<'a> {
    /// The target's operating system.
    pub os: &'a str,
    /// The target's architecture.
    pub arch: &'a str,
    /// The time of the build, after RFC 3339.
    pub build_time: &'a str,
    /// What the version control printed for the commit, where it succeeded.
    pub commit: Option<&'a str>,
    /// The suffix of the version.
    pub suffix: Option<&'a str>,
    /// The value of the switch for coverage.
    pub coverage: Option<&'a str>,
    /// The distribution channel.
    pub distribution: Option<&'a str>,
}

/// The distribution channel; a build without one is of an unknown one.
pub open spec fn channel(distribution: Option<Seq<char>>) -> Seq<char> {
    match distribution {
        Some(d) => d,
        None => "unknown"@,
    }
}

impl CliInfo {
    /// Takes what the build knows. A build without a distribution channel is
    /// of an unknown one.
    pub fn new(
        platform: &str,
        build_time: &str,
        commit_id: &str,
        version: &str,
        distribution: Option<&str>,
    ) -> (r: CliInfo)
        ensures
            r.platform@ == platform@,
            r.build_time@ == build_time@,
            r.commit_id@ == commit_id@,
            r.version@ == version@,
            r.distribution@ == channel(optional_str(distribution)),
    {
        let distribution: &str = match distribution {
            Some(d) => d,
            None => "unknown",
        };
        CliInfo {
            platform: platform.to_owned(),
            build_time: build_time.to_owned(),
            commit_id: commit_id.to_owned(),
            version: version.to_owned(),
            distribution: distribution.to_owned(),
        }
    }

    /// Whether the information is that of the build.
    pub open spec fn describes(self, build: Build<'_>) -> bool {
        &&& self.platform@ == build.os@ + "/"@ + build.arch@
        &&& self.build_time@ == build.build_time@
        &&& self.commit_id@ == short_hash(optional_str(build.commit))
        &&& self.version@ == build_version_text(
            PACKAGE_VERSION@,
            optional_str(build.suffix),
            optional_str(build.coverage),
        )
        &&& self.distribution@ == channel(optional_str(build.distribution))
    }

    /// The information of a build.
    pub fn of_build(build: &Build<'_>) -> (r: CliInfo)
        ensures
            r.describes(*build),
            r.version@.len() > 0,
    {
        proof {
            reveal_strlit("0.1.0");
        }
        CliInfo::new(
            target_platform(build.os, build.arch).as_str(),
            build.build_time,
            commit_id(build.commit).as_str(),
            build_version(PACKAGE_VERSION, build.suffix, build.coverage).as_str(),
            build.distribution,
        )
    }

    /// The information as JSON, for the request header.
    pub open spec fn json(self) -> Json {
        Json::Object(
            seq![
                ("platform"@, Json::String(self.platform@)),
                ("build_time"@, Json::String(self.build_time@)),
                ("commit_id"@, Json::String(self.commit_id@)),
                ("version"@, Json::String(self.version@)),
                ("distribution"@, Json::String(self.distribution@)),
            ],
        )
    }

    /// The information as JSON, for the request header.
    pub fn to_json(&self) -> (r: Value)
        ensures
            r@ == self.json(),
            valid(r@),
    {
        let entries: Vec<(String, Value)> = vec![
            ("platform".to_owned(), text_value(self.platform.as_str())),
            ("build_time".to_owned(), text_value(self.build_time.as_str())),
            ("commit_id".to_owned(), text_value(self.commit_id.as_str())),
            ("version".to_owned(), text_value(self.version.as_str())),
            ("distribution".to_owned(), text_value(self.distribution.as_str())),
        ];
        proof {
            object_view(entries);
            assert(entries_of(entries@) =~= self.json()->Object_0);
            reveal_with_fuel(valid, 2);
            reveal_strlit("platform");
            reveal_strlit("build_time");
            reveal_strlit("commit_id");
            reveal_strlit("version");
            reveal_strlit("distribution");
            assert("platform"@.len() == 8 && "build_time"@.len() == 10 && "commit_id"@.len() == 9);
            assert("version"@.len() == 7 && "distribution"@.len() == 12);
        }
        Value::Object(entries)
    }

    /// The version line: `name version (distribution build_time commit)`.
    pub open spec fn version_line(self, name: Seq<char>) -> Seq<char> {
        name + " "@ + self.version@ + " ("@ + self.distribution@ + " "@ + self.build_time@ + " "@
            + self.commit_id@ + ")"@
    }

    /// The version line for a command of this name.
    pub fn display_with_name(&self, name: &str) -> (r: String)
        ensures
            r@ == self.version_line(name@),
    {
        let mut out: String = name.to_owned();
        out.append(" ");
        out.append(self.version.as_str());
        out.append(" (");
        out.append(self.distribution.as_str());
        out.append(" ");
        out.append(self.build_time.as_str());
        out.append(" ");
        out.append(self.commit_id.as_str());
        out.append(")");
        out
    }

    /// The version line under the default name.
    pub fn display(&self) -> (r: String)
        ensures
            r@ == self.version_line(DEFAULT_BIN_NAME@),
    {
        self.display_with_name(DEFAULT_BIN_NAME)
    }
}

/// The target platform, `os/arch`.
pub fn target_platform(os: &str, arch: &str) -> (r: String)
    ensures
        r@ == os@ + "/"@ + arch@,
{
    let mut out: String = os.to_owned();
    out.append("/");
    out.append(arch);
    out
}

/// The version of a build: that of the package, with the suffix where there is
/// one, and with a mark where the build measures coverage.
pub open spec fn build_version_text(
    package: Seq<char>,
    suffix: Option<Seq<char>>,
    coverage: Option<Seq<char>>,
) -> Seq<char> {
    package + (match suffix {
        Some(s) => "-"@ + s,
        None => Seq::empty(),
    }) + (if coverage == Some("true"@) {
        "-coverage"@
    } else {
        Seq::empty()
    })
}

/// The version of a build. `coverage` is the value of the switch for coverage,
/// which is on where it is `true`.
pub fn build_version(package: &str, suffix: Option<&str>, coverage: Option<&str>) -> (r: String)
    ensures
        r@ == build_version_text(package@, optional_str(suffix), optional_str(coverage)),
{
    let mut out: String = package.to_owned();
    if let Some(s) = suffix {
        out.append("-");
        out.append(s);
    }
    if let Some(c) = coverage {
        if same_text(c, "true") {
            out.append("-coverage");
        }
    }
    assert(out@ =~= build_version_text(package@, optional_str(suffix), optional_str(coverage)));
    out
}

/// The short hash of the commit, from what the version control printed where
/// it succeeded; empty otherwise.
pub open spec fn short_hash(printed: Option<Seq<char>>) -> Seq<char> {
    match printed {
        Some(text) => trimmed(text),
        None => Seq::empty(),
    }
}

/// The short hash of the commit.
pub fn commit_id(printed: Option<&str>) -> (r: String)
    ensures
        r@ == short_hash(optional_str(printed)),
{
    match printed {
        Some(text) => string_of(&trim(&chars_of(text))),
        None => String::new(),
    }
}

/// The information of a build is always the same, however often it is made: so
/// are its JSON and its version line. The version is never empty, and starts
/// with that of the package.
pub proof fn build_fixes_info(a: CliInfo, b: CliInfo, build: Build<'_>, name: Seq<char>)
    requires
        a.describes(build),
        b.describes(build),
    ensures
        a.platform@ == b.platform@,
        a.build_time@ == b.build_time@,
        a.commit_id@ == b.commit_id@,
        a.version@ == b.version@,
        a.distribution@ == b.distribution@,
        a.json() == b.json(),
        a.version_line(name) == b.version_line(name),
        a.platform@ == build.os@ + "/"@ + build.arch@,
        a.distribution@ == channel(optional_str(build.distribution)),
        a.version@.len() > 0,
        a.version@.take(PACKAGE_VERSION@.len() as int) == PACKAGE_VERSION@,
{
    reveal_strlit("0.1.0");
    assert(a.version@.take(PACKAGE_VERSION@.len() as int) =~= PACKAGE_VERSION@);
}

/// What a build finds is what its information tells: nothing is left out, and
/// nothing is made up but the channel of a build without one.
pub proof fn build_is_told(info: CliInfo, build: Build<'_>)
    requires
        info.describes(build),
    ensures
        info.platform@ == build.os@ + seq!['/'] + build.arch@,
        info.build_time@ == build.build_time@,
        build.commit is None ==> info.commit_id@.len() == 0,
        build.distribution is None ==> info.distribution@ == "unknown"@,
        build.distribution matches Some(d) ==> info.distribution@ == d@,
        build.suffix is None && build.coverage is None ==> info.version@ == "0.1.0"@,
{
    reveal_strlit("/");
    assert("/"@ =~= seq!['/']);
    let none = Seq::<char>::empty();
    assert(PACKAGE_VERSION@ + none + none =~= PACKAGE_VERSION@);
}

/// The commit is what was printed for it, without the white space around it.
pub proof fn commit_is_trimmed(before: Seq<char>, hash: Seq<char>, after: Seq<char>)
    requires
        all_white(before),
        all_white(after),
        hash.len() > 0 ==> !is_white_space(hash[0]) && !is_white_space(hash.last()),
    ensures
        short_hash(Some(before + hash + after)) == hash,
        short_hash(None).len() == 0,
{
    trimming_keeps_the_core(before, hash, after);
}

/// A suffix goes behind the version with a dash, and behind both goes the mark
/// of a build that measures coverage: one whose switch is `true`, and no other.
pub proof fn version_is_marked(
    package: Seq<char>,
    suffix: Seq<char>,
    other: Option<Seq<char>>,
    switch: Option<Seq<char>>,
)
    ensures
        build_version_text(package, None, None) == package,
        build_version_text(package, Some(suffix), None) == package + seq!['-'] + suffix,
        build_version_text(package, other, Some("true"@)) == build_version_text(
            package,
            other,
            None,
        ) + "-coverage"@,
        switch != Some("true"@) ==> build_version_text(package, other, switch)
            == build_version_text(package, other, None),
{
    reveal_strlit("-");
    assert("-"@ =~= seq!['-']);
    let none = Seq::<char>::empty();
    assert(package + none + none =~= package);
    assert(package + ("-"@ + suffix) + none =~= package + seq!['-'] + suffix);
    let base = package + (match other {
        Some(s) => "-"@ + s,
        None => none,
    });
    assert(base + none =~= base);
}

/// The version line tells the name, the version, and in brackets the channel,
/// the time and the commit, with a space between each two.
pub proof fn version_line_tells_the_build(info: CliInfo, name: Seq<char>)
    ensures
        info.version_line(name) == name + info.version_line(Seq::empty()),
        info.version_line(Seq::empty()) == seq![' '] + info.version@ + seq![' ', '(']
            + info.distribution@ + seq![' '] + info.build_time@ + seq![' '] + info.commit_id@
            + seq![')'],
{
    reveal_strlit(" ");
    reveal_strlit(" (");
    reveal_strlit(")");
    assert(" "@ =~= seq![' ']);
    assert(" ("@ =~= seq![' ', '(']);
    assert(")"@ =~= seq![')']);
    assert(info.version_line(name) =~= name + info.version_line(Seq::empty()));
    assert(info.version_line(Seq::empty()) =~= seq![' '] + info.version@ + seq![' ', '(']
        + info.distribution@ + seq![' '] + info.build_time@ + seq![' '] + info.commit_id@
        + seq![')']);
}

/// The JSON of the information holds each of its fields under its own name.
pub proof fn information_is_told_by_name(info: CliInfo)
    ensures
        json_get(info.json(), seq![Segment::Key("platform"@)]) == Some(
            Json::String(info.platform@),
        ),
        json_get(info.json(), seq![Segment::Key("build_time"@)]) == Some(
            Json::String(info.build_time@),
        ),
        json_get(info.json(), seq![Segment::Key("commit_id"@)]) == Some(
            Json::String(info.commit_id@),
        ),
        json_get(info.json(), seq![Segment::Key("version"@)]) == Some(Json::String(info.version@)),
        json_get(info.json(), seq![Segment::Key("distribution"@)]) == Some(
            Json::String(info.distribution@),
        ),
        info.json() matches Json::Object(entries) && entries.len() == 5,
{
    reveal_strlit("platform");
    reveal_strlit("build_time");
    reveal_strlit("commit_id");
    reveal_strlit("version");
    reveal_strlit("distribution");
    assert("platform"@.len() == 8 && "build_time"@.len() == 10 && "commit_id"@.len() == 9);
    assert("version"@.len() == 7 && "distribution"@.len() == 12);
    let entries = info.json()->Object_0;
    assert(distinct_keys(entries));
    field_is_told(entries, 0);
    field_is_told(entries, 1);
    field_is_told(entries, 2);
    field_is_told(entries, 3);
    field_is_told(entries, 4);
}

proof fn field_is_told(entries: Seq<(Seq<char>, Json)>, i: int)
    requires
        distinct_keys(entries),
        0 <= i < entries.len(),
    ensures
        json_get(Json::Object(entries), seq![Segment::Key(entries[i].0)]) == Some(entries[i].1),
{
    let none = Seq::<Segment>::empty();
    key_leads_to_its_entry(entries, entries[i].0, none, i);
    assert(seq![Segment::Key(entries[i].0)] + none =~= seq![Segment::Key(entries[i].0)]);
    assert(json_get(entries[i].1, none) == Some(entries[i].1));
}

/// The largest request body is a hundred times 1024 times 1024 bytes.
pub proof fn upload_limit_in_bytes()
    ensures
        MAX_UPLOAD_SIZE == 104857600,
{
}

} // verus!
