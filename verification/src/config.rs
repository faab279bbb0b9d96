//! The settings that the engine consumes, as plain values.

use vstd::prelude::*;
use vstd::string::StringExecFns;
use vstd::string::StrSliceExecFns;

verus! {

/// The name of the image directory of a gallery where none is set.
pub const GALLERY_FOLDER_NAME: &'static str = "images";

/// The name of the output directory where none is set.
pub const OUTPUT_FOLDER_NAME: &'static str = "_output";

/// The protocol that the remote store is reached by.
#[derive(PartialEq, Eq, Clone, Copy, Debug, Structural)]
pub enum FtpProtocol {
    Ftp,
    Sftp,
}

/// Where the log goes.
#[derive(PartialEq, Eq, Clone, Copy, Debug, Structural)]
pub enum LogKind {
    Stdout,
    File,
}

/// The settings of a gallery.
#[derive(Debug)]
pub struct Gallery {
    pub img_dir: Option<String>,
    pub img_width: u32,
    pub img_height: u32,
    pub thumb_width: u32,
    pub thumb_height: u32,
}

/// The settings of the synchronisation.
#[derive(Debug)]
pub struct SyncSettings {
    pub ftp_server: String,
    pub ftp_port: Option<u32>,
    pub ftp_protocol: Option<FtpProtocol>,
    pub ftp_user: String,
    pub ftp_target_dir: Option<String>,
    pub ftp_overwrite: Option<bool>,
}

/// The settings of a project.
#[derive(Debug)]
pub struct Config {
    pub title: Option<String>,
    pub template_dir: Option<String>,
    pub output_dir: Option<String>,
    pub logging: Option<LogKind>,
    pub remove_numbered_prefix: Option<bool>,
    pub copy_dirs: Option<Vec<String>>,
    pub gallery: Option<Gallery>,
    pub sync_settings: Option<SyncSettings>,
}

impl Default for Config {
    fn default() -> (conf: Config)
        ensures
            conf.title is None,
            conf.template_dir is None,
            conf.output_dir is None,
            conf.logging is None,
            conf.remove_numbered_prefix is None,
            conf.copy_dirs is None,
            conf.gallery is None,
            conf.sync_settings is None,
    {
        Config {
            title: None,
            template_dir: None,
            output_dir: None,
            logging: None,
            remove_numbered_prefix: None,
            copy_dirs: None,
            gallery: None,
            sync_settings: None,
        }
    }
}

/// The text of the path `rel` seen from the directory `base`: `rel` itself
/// where it starts at the root, else `base` and `rel` with one separator
/// between them.
pub open spec fn joined(base: Seq<char>, rel: Seq<char>) -> Seq<char> {
    if rel.len() > 0 && rel[0] == '/' {
        rel
    } else if base.len() == 0 || base.last() == '/' {
        base + rel
    } else {
        base + seq!['/'] + rel
    }
}

/// The target directory made absolute: it starts with a separator.
pub open spec fn rooted(dir: Seq<char>) -> Seq<char> {
    if dir.len() > 0 && dir[0] == '/' {
        dir
    } else {
        seq!['/'] + dir
    }
}

/// The paths of `dirs`, each seen from `base`.
pub open spec fn joined_all(base: Seq<char>, dirs: Seq<String>) -> Seq<Seq<char>> {
    Seq::new(dirs.len(), |i: int| joined(base, dirs[i]@))
}

/// The texts of a list of strings.
pub open spec fn texts(v: Seq<String>) -> Seq<Seq<char>> {
    Seq::new(v.len(), |i: int| v[i]@)
}

/// Whether `text` starts with a separator.
fn starts_at_root(text: &str) -> (rooted: bool)
    ensures
        rooted == (text@.len() > 0 && text@[0] == '/'),
{
    text.unicode_len() > 0 && text.get_char(0) == '/'
}

/// The text of the path `rel` seen from the directory `base`.
pub fn join_text(base: &str, rel: &str) -> (path: String)
    ensures
        path@ == joined(base@, rel@),
{
    if starts_at_root(rel) {
        return String::from_str(rel);
    }
    let n = base.unicode_len();
    let mut path = String::from_str(base);
    if n > 0 && base.get_char(n - 1) != '/' {
        proof {
            reveal_strlit("/");
        }
        path.append("/");
        assert("/"@ =~= seq!['/']);
    }
    path.append(rel);
    path
}

impl Config {
    /// Completes the settings and makes their paths absolute, seen from the
    /// project directory `base_path`: the output directory (`_output` where
    /// none is set), the template directory and the directories to copy.
    /// A gallery gets its defaults, and the remote target directory a
    /// leading separator.
    pub fn resolve_paths(&mut self, base_path: &str)
        ensures
            final(self).output_dir matches Some(dir) && dir@ == joined(
                base_path@,
                match old(self).output_dir {
                    Some(d) => d@,
                    None => OUTPUT_FOLDER_NAME@,
                },
            ),
            match old(self).gallery {
                None => final(self).gallery matches Some(g) && (g.img_dir matches Some(d) && d@
                    == GALLERY_FOLDER_NAME@) && g.img_width == 600 && g.img_height == 800
                    && g.thumb_width == 90 && g.thumb_height == 90,
                Some(was) => final(self).gallery matches Some(g) && g.img_width == was.img_width
                    && g.img_height == was.img_height && g.thumb_width == was.thumb_width
                    && g.thumb_height == was.thumb_height && (g.img_dir matches Some(d) && d@ == (
                match was.img_dir {
                    Some(w) => w@,
                    None => GALLERY_FOLDER_NAME@,
                })),
            },
            match old(self).template_dir {
                None => final(self).template_dir is None,
                Some(was) => final(self).template_dir matches Some(dir) && dir@ == joined(
                    base_path@,
                    was@,
                ),
            },
            match old(self).copy_dirs {
                None => final(self).copy_dirs is None,
                Some(was) => final(self).copy_dirs matches Some(dirs) && texts(dirs@) == joined_all(
                    base_path@,
                    was@,
                ),
            },
            match old(self).sync_settings {
                None => final(self).sync_settings is None,
                Some(was) => final(self).sync_settings matches Some(now) && now.ftp_server
                    == was.ftp_server && now.ftp_port == was.ftp_port && now.ftp_protocol
                    == was.ftp_protocol && now.ftp_user == was.ftp_user && now.ftp_overwrite
                    == was.ftp_overwrite && (match was.ftp_target_dir {
                    None => now.ftp_target_dir is None,
                    Some(dir) => now.ftp_target_dir matches Some(abs) && abs@ == rooted(dir@),
                }),
            },
            final(self).title == old(self).title,
            final(self).logging == old(self).logging,
            final(self).remove_numbered_prefix == old(self).remove_numbered_prefix,
    {
        let output = match &self.output_dir {
            Some(dir) => join_text(base_path, dir.as_str()),
            None => join_text(base_path, OUTPUT_FOLDER_NAME),
        };
        self.output_dir = Some(output);
        let gallery = match self.gallery.take() {
            None => Gallery {
                img_dir: Some(String::from_str(GALLERY_FOLDER_NAME)),
                img_width: 600,
                img_height: 800,
                thumb_width: 90,
                thumb_height: 90,
            },
            Some(g) => Gallery {
                img_dir: match g.img_dir {
                    Some(d) => Some(d),
                    None => Some(String::from_str(GALLERY_FOLDER_NAME)),
                },
                img_width: g.img_width,
                img_height: g.img_height,
                thumb_width: g.thumb_width,
                thumb_height: g.thumb_height,
            },
        };
        self.gallery = Some(gallery);
        let template = match &self.template_dir {
            Some(dir) => Some(join_text(base_path, dir.as_str())),
            None => None,
        };
        self.template_dir = template;
        let copies = match &self.copy_dirs {
            Some(dirs) => {
                let mut out: Vec<String> = Vec::new();
                let mut i: usize = 0;
                while i < dirs.len()
                    invariant
                        i <= dirs.len(),
                        texts(out@) == joined_all(base_path@, dirs@).take(i as int),
                    decreases dirs.len() - i,
                {
                    let ghost before = texts(out@);
                    let path = join_text(base_path, dirs[i].as_str());
                    out.push(path);
                    assert(texts(out@) =~= before.push(joined(base_path@, dirs@[i as int]@)));
                    assert(texts(out@) =~= joined_all(base_path@, dirs@).take(i + 1));
                    i += 1;
                }
                assert(joined_all(base_path@, dirs@).take(i as int) =~= joined_all(
                    base_path@,
                    dirs@,
                ));
                Some(out)
            },
            None => None,
        };
        self.copy_dirs = copies;
        let settings = match self.sync_settings.take() {
            None => None,
            Some(s) => {
                let target = match s.ftp_target_dir {
                    None => None,
                    Some(dir) => {
                        if starts_at_root(dir.as_str()) {
                            Some(dir)
                        } else {
                            proof {
                                reveal_strlit("/");
                            }
                            assert("/"@ =~= seq!['/']);
                            Some(String::from_str("/").concat(dir.as_str()))
                        }
                    },
                };
                Some(
                    SyncSettings {
                        ftp_server: s.ftp_server,
                        ftp_port: s.ftp_port,
                        ftp_protocol: s.ftp_protocol,
                        ftp_user: s.ftp_user,
                        ftp_target_dir: target,
                        ftp_overwrite: s.ftp_overwrite,
                    },
                )
            },
        };
        self.sync_settings = settings;
    }
}

} // verus!
