use vstd::prelude::*;
use vstd::string::StrSliceExecFns;
use vstd::string::StringExecFns;

use crate::error::PMTilesError;
use crate::paths::{str_eq, trim_end_slashes, trimmed_end_slashes};

verus! {

/// Where the server's assets live, each relative to the resolved root.
#[derive(Debug, Clone)]
pub struct PathsConfig {
    pub home: Option<String>,
    pub root: Option<String>,
    pub fonts: Option<String>,
    pub sprites: Option<String>,
    pub icons: Option<String>,
    pub pmtiles: Option<String>,
    pub styles: Option<String>,
}

#[derive(Debug, Clone)]
pub struct OptionsConfig {
    pub paths: PathsConfig,
    pub domains: Vec<String>,
}

#[derive(Debug, Clone)]
pub struct StyleConfig {
    pub style: String,
}

#[derive(Debug, Clone)]
pub struct DataConfig {
    pub pmtiles: String,
}

/// The server's configuration: its path layout and the named styles and
/// tilesets it serves, as key-value rows with unique keys.
#[derive(Debug, Clone)]
pub struct ServerConfig {
    pub options: OptionsConfig,
    pub styles: Vec<(String, StyleConfig)>,
    pub data: Vec<(String, DataConfig)>,
}

/// The archive-directory part of a tileset path: the configured prefix and
/// a slash, or nothing.
pub open spec fn pmtiles_prefix_part(o: Option<String>) -> Seq<char> {
    match o {
        Some(p) => p@ + seq!['/'],
        None => Seq::<char>::empty(),
    }
}

/// The characters an optional setting holds, or its default.
pub open spec fn opt_or(o: Option<String>, default: Seq<char>) -> Seq<char> {
    match o {
        Some(s) => s@,
        None => default,
    }
}

impl ServerConfig {
    /// Where a style document lives under the resolved root.
    pub fn get_style_path(&self, root: &str, style: &StyleConfig) -> (r: String)
        ensures
            r@ == root@ + seq!['/'] + opt_or(self.options.paths.styles, seq!['s', 't', 'y', 'l', 'e', 's'])
                + seq!['/'] + style.style@,
    {
        proof {
            reveal_strlit("/");
            reveal_strlit("styles");
            assert("/"@ =~= seq!['/']);
            assert("styles"@ =~= seq!['s', 't', 'y', 'l', 'e', 's']);
        }
        let prefix: &str = match &self.options.paths.styles {
            Some(s) => s.as_str(),
            None => "styles",
        };
        let out = String::from_str(root);
        let out = out.concat("/");
        let out = out.concat(prefix);
        let out = out.concat("/");
        out.concat(style.style.as_str())
    }

    /// Where one glyph range of a font lives under the resolved root.
    pub fn get_font_path(&self, root: &str, font: &str, range: &str) -> (r: String)
        ensures
            r@ == root@ + seq!['/'] + opt_or(self.options.paths.fonts, seq!['f', 'o', 'n', 't', 's'])
                + seq!['/'] + font@ + seq!['/'] + range@ + seq!['.', 'p', 'b', 'f'],
    {
        proof {
            reveal_strlit("/");
            reveal_strlit("fonts");
            reveal_strlit(".pbf");
            assert("/"@ =~= seq!['/']);
            assert("fonts"@ =~= seq!['f', 'o', 'n', 't', 's']);
            assert(".pbf"@ =~= seq!['.', 'p', 'b', 'f']);
        }
        let prefix: &str = match &self.options.paths.fonts {
            Some(s) => s.as_str(),
            None => "fonts",
        };
        let out = String::from_str(root);
        let out = out.concat("/");
        let out = out.concat(prefix);
        let out = out.concat("/");
        let out = out.concat(font);
        let out = out.concat("/");
        let out = out.concat(range);
        out.concat(".pbf")
    }

    /// Where a named tileset's archive lives under the resolved root; the
    /// name must be configured.
    #[verifier::loop_isolation(false)]
    pub fn get_tileset_path(&self, root: &str, tileset: &str) -> (r: Result<String, PMTilesError>)
        ensures
            r is Ok <==> exists|i: int|
                0 <= i < self.data@.len() && #[trigger] self.data@[i].0@ == tileset@,
            r matches Ok(p) ==> exists|i: int|
                {
                    &&& 0 <= i < self.data@.len()
                    &&& #[trigger] self.data@[i].0@ == tileset@
                    &&& p@ == root@ + seq!['/'] + pmtiles_prefix_part(self.options.paths.pmtiles)
                        + self.data@[i].1.pmtiles@
                },
    {
        proof {
            reveal_strlit("/");
            assert("/"@ =~= seq!['/']);
        }
        let n = self.data.len();
        let mut i: usize = 0;
        while i < n
            invariant
                i <= n,
                n == self.data@.len(),
                forall|j: int| 0 <= j < i ==> #[trigger] self.data@[j].0@ != tileset@,
            decreases n - i,
        {
            let pair = &self.data[i];
            if str_eq(pair.0.as_str(), tileset) {
                let found: &DataConfig = &pair.1;
                let out = String::from_str(root);
                let out = out.concat("/");
                let ghost mid: Seq<char> = pmtiles_prefix_part(self.options.paths.pmtiles);
                let out = match &self.options.paths.pmtiles {
                    Some(pre) => {
                        let o = out.concat(pre.as_str());
                        let o2 = o.concat("/");
                        proof {
                            assert(o2@ =~= root@ + seq!['/'] + mid);
                        }
                        o2
                    },
                    None => {
                        proof {
                            assert(out@ =~= root@ + seq!['/'] + mid);
                        }
                        out
                    },
                };
                let full = out.concat(found.pmtiles.as_str());
                proof {
                    assert(self.data@[i as int].0@ == tileset@);
                    assert(full@ =~= root@ + seq!['/'] + mid + self.data@[i as int].1.pmtiles@);
                }
                return Ok(full);
            }
            i = i + 1;
        }
        Err(PMTilesError::NotFound(Some(String::from_str("tileset does not exist in config"))))
    }
}

/// What prefixing a path with the configured home yields: the home (with one
/// trailing slash when asked) goes in front, then a leading slash when asked
/// and missing.
pub open spec fn spec_prefixed_with_home(
    path: Seq<char>,
    home: Option<String>,
    leading: bool,
    trailing: bool,
) -> Seq<char> {
    let with_home = match home {
        Some(h) => if h@.len() > 0 {
            if trailing {
                trimmed_end_slashes(h@) + seq!['/'] + path
            } else {
                h@ + path
            }
        } else {
            path
        },
        None => path,
    };
    if leading && !(with_home.len() > 0 && with_home[0] == '/') {
        seq!['/'] + with_home
    } else {
        with_home
    }
}

/// Put the configured home, when there is one, in front of `path`; with
/// `trailing_slash` the home ends in exactly one slash, with `leading_slash`
/// the result starts with one.
pub fn prefix_with_home(
    path: &mut String,
    cfg: &ServerConfig,
    leading_slash: bool,
    trailing_slash: bool,
)
    ensures
        final(path)@ == spec_prefixed_with_home(
            old(path)@,
            cfg.options.paths.home,
            leading_slash,
            trailing_slash,
        ),
{
    proof {
        reveal_strlit("/");
        assert("/"@ =~= seq!['/']);
    }
    let mut out: String = String::new();
    match &cfg.options.paths.home {
        Some(h) => {
            if h.as_str().unicode_len() > 0 {
                if trailing_slash {
                    let th = trim_end_slashes(h.as_str());
                    out = out.concat(th);
                    out = out.concat("/");
                } else {
                    out = out.concat(h.as_str());
                }
            }
        },
        None => {},
    }
    out = out.concat(path.as_str());
    let bare = out.as_str().unicode_len() == 0;
    if leading_slash && (bare || out.as_str().get_char(0) != '/') {
        let prefixed = String::from_str("/");
        out = prefixed.concat(out.as_str());
    }
    *path = out;
}

} // verus!
