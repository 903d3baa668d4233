//! What the program says of how it was built.

use vstd::prelude::*;
use vstd::string::StringExecFns;

verus! {

/// What may be known of how the program was built.
#[derive(Debug)]
pub struct Build {
    pub package_version: Option<String>,
    pub build_timestamp: Option<String>,
    pub cargo_debug: Option<String>,
    pub cargo_dependencies: Option<String>,
    pub cargo_features: Option<String>,
    pub cargo_opt_level: Option<String>,
    pub cargo_target_triple: Option<String>,
    pub git_describe: Option<String>,
    pub git_branch: Option<String>,
    pub git_commit_date: Option<String>,
    pub git_sha: Option<String>,
    pub rustc_channel: Option<String>,
    pub rustc_commit_date: Option<String>,
    pub rustc_commit_hash: Option<String>,
    pub rustc_host_triple: Option<String>,
    pub rustc_llvm_version: Option<String>,
    pub rustc_semver: Option<String>,
}

/// A line for one thing that is known.
pub open spec fn fact_text(label: Seq<char>, value: Option<String>, list: bool) -> Seq<char> {
    match value {
        None => Seq::empty(),
        Some(value) => if list {
            label + "["@ + value@ + "]\n"@
        } else {
            label + value@ + "\n"@
        },
    }
}

impl Build {
    /// A line for each thing that is known.
    pub open spec fn text(self) -> Seq<char> {
        fact_text("WAYDAPT SEMVER:      "@, self.package_version, false) + fact_text(
            "BUILD TIMESTAMP:     "@,
            self.build_timestamp,
            false,
        ) + fact_text("CARGO DEBUG:         "@, self.cargo_debug, false) + fact_text(
            "CARGO DEPENDENCIES:  "@,
            self.cargo_dependencies,
            true,
        ) + fact_text("CARGO FEATURES:      "@, self.cargo_features, true) + fact_text(
            "CARGO OPT LEVEL:     "@,
            self.cargo_opt_level,
            false,
        ) + fact_text("CARGO TARGET TRIPLE: "@, self.cargo_target_triple, false) + fact_text(
            "GIT DESCRIBE:        "@,
            self.git_describe,
            false,
        ) + fact_text("GIT BRANCH:          "@, self.git_branch, false) + fact_text(
            "GIT COMMIT DATE:     "@,
            self.git_commit_date,
            false,
        ) + fact_text("GIT SHA:             "@, self.git_sha, false) + fact_text(
            "RUSTC CHANNEL:       "@,
            self.rustc_channel,
            false,
        ) + fact_text("RUSTC COMMIT DATE:   "@, self.rustc_commit_date, false) + fact_text(
            "RUSTC COMMIT HASH:   "@,
            self.rustc_commit_hash,
            false,
        ) + fact_text("RUSTC HOST TRIPLE:   "@, self.rustc_host_triple, false) + fact_text(
            "RUSTC LLVM VERSION:  "@,
            self.rustc_llvm_version,
            false,
        ) + fact_text("RUSTC SEMVER:        "@, self.rustc_semver, false)
    }
}

/// Writes a line for one thing, if it is known.
fn write_fact(out: &mut String, label: &str, value: &Option<String>, list: bool)
    ensures
        final(out)@ == old(out)@ + fact_text(label@, *value, list),
{
    match value {
        None => {
            assert(out@ =~= old(out)@ + Seq::<char>::empty());
        },
        Some(value) => {
            out.append(label);
            if list {
                out.append("[");
                out.append(value.as_str());
                out.append("]\n");
            } else {
                out.append(value.as_str());
                out.append("\n");
            }
            assert(out@ =~= old(out)@ + fact_text(label@, Some(*value), list));
        },
    }
}

/// What the program says of how it was built: a line for each thing that is known.
pub fn version_info(build: &Build) -> (r: String)
    ensures
        r@ == build.text(),
{
    let mut out = String::new();
    write_fact(&mut out, "WAYDAPT SEMVER:      ", &build.package_version, false);
    assert(out@ =~= fact_text("WAYDAPT SEMVER:      "@, build.package_version, false));
    write_fact(&mut out, "BUILD TIMESTAMP:     ", &build.build_timestamp, false);
    write_fact(&mut out, "CARGO DEBUG:         ", &build.cargo_debug, false);
    write_fact(&mut out, "CARGO DEPENDENCIES:  ", &build.cargo_dependencies, true);
    write_fact(&mut out, "CARGO FEATURES:      ", &build.cargo_features, true);
    write_fact(&mut out, "CARGO OPT LEVEL:     ", &build.cargo_opt_level, false);
    write_fact(&mut out, "CARGO TARGET TRIPLE: ", &build.cargo_target_triple, false);
    write_fact(&mut out, "GIT DESCRIBE:        ", &build.git_describe, false);
    write_fact(&mut out, "GIT BRANCH:          ", &build.git_branch, false);
    write_fact(&mut out, "GIT COMMIT DATE:     ", &build.git_commit_date, false);
    write_fact(&mut out, "GIT SHA:             ", &build.git_sha, false);
    write_fact(&mut out, "RUSTC CHANNEL:       ", &build.rustc_channel, false);
    write_fact(&mut out, "RUSTC COMMIT DATE:   ", &build.rustc_commit_date, false);
    write_fact(&mut out, "RUSTC COMMIT HASH:   ", &build.rustc_commit_hash, false);
    write_fact(&mut out, "RUSTC HOST TRIPLE:   ", &build.rustc_host_triple, false);
    write_fact(&mut out, "RUSTC LLVM VERSION:  ", &build.rustc_llvm_version, false);
    write_fact(&mut out, "RUSTC SEMVER:        ", &build.rustc_semver, false);
    out
}

} // verus!
