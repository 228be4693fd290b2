//! Which stored copy of the document to trust. Reading and writing the files
//! is left to the caller; these functions decide from what it found, and
//! never let a damaged or newer file be overwritten silently.
use vstd::prelude::*;

use crate::model::Document;
use crate::text::{append, lit};

verus! {

/// The largest data file that is read: 32 MiB.
pub const MAX_FILE_BYTES: u64 = 33_554_432;

/// A data file of `len` bytes is too large to read.
pub fn too_large(len: u64) -> (r: bool)
    ensures
        r == (len > MAX_FILE_BYTES),
{
    len > MAX_FILE_BYTES
}

/// What loading settled on.
pub enum Loaded {
    /// Neither the main file nor the backup exists: start a new document.
    Fresh,
    /// The main file reads and checks well.
    Main(Document),
    /// The main file is damaged and the backup good: use the backup, move the
    /// damaged main file aside when there is one, and tell the user.
    Backup { doc: Document, set_aside: bool, notice: String },
    /// Neither copy can be used; nothing is to be written.
    Refused(String),
}

/// The notice shown after falling back to the backup.
pub open spec fn recovered_notice() -> Seq<char> {
    "主数据异常，已从备份恢复。原文件已保留。"@
}

/// The message when neither copy can be read.
pub open spec fn unreadable_message(dir: Seq<char>, error: Seq<char>) -> Seq<char> {
    "数据及备份无法读取，已停止启动以保护原文件。\n"@ + dir + "\n"@ + error
}

/// Decides which copy to load. `main` and `backup` are what reading and
/// checking each file gave; `main_version` is the `version` that the main
/// file states, when it is JSON with a numeric version; `dir` names the
/// data directory for the message. A main file of a newer format is never
/// replaced by an older backup.
pub fn choose_copy(
    main_exists: bool,
    backup_exists: bool,
    main: Result<Document, String>,
    main_version: Option<u64>,
    backup: Result<Document, String>,
    dir: &str,
) -> (r: Loaded)
    ensures
        !main_exists && !backup_exists ==> r is Fresh,
        main_exists || backup_exists ==> match main {
            Ok(doc) => r == Loaded::Main(doc),
            Err(error) => if main_version matches Some(v) && v > 2 {
                r == Loaded::Refused(error)
            } else {
                match backup {
                    Ok(doc) => r matches Loaded::Backup { doc: d, set_aside, notice } && d == doc
                        && set_aside == main_exists && notice@ == recovered_notice(),
                    Err(_) => r matches Loaded::Refused(msg) && msg@ == unreadable_message(dir@, error@),
                }
            },
        },
{
    if !main_exists && !backup_exists {
        return Loaded::Fresh;
    }
    match main {
        Ok(doc) => Loaded::Main(doc),
        Err(error) => {
            let newer = match main_version {
                Some(v) => v > 2,
                None => false,
            };
            if newer {
                return Loaded::Refused(error);
            }
            match backup {
                Ok(doc) => Loaded::Backup {
                    doc,
                    set_aside: main_exists,
                    notice: lit("主数据异常，已从备份恢复。原文件已保留。"),
                },
                Err(_) => {
                    let mut msg = lit("数据及备份无法读取，已停止启动以保护原文件。\n");
                    append(&mut msg, dir);
                    append(&mut msg, "\n");
                    append(&mut msg, error.as_str());
                    Loaded::Refused(msg)
                },
            }
        },
    }
}

/// What saving is to write.
pub enum SavePlan {
    /// Write the document as the main file; first copy the current main file
    /// to the backup when `keep_backup`.
    Write { keep_backup: bool },
    /// Write nothing: the main file exists but does not read and check well,
    /// and overwriting it would silently lose it.
    Refuse(String),
}

/// The message when saving would overwrite an unreadable main file.
pub open spec fn unreadable_main_message() -> Seq<char> {
    "数据文件无法读取，已停止保存以保护原文件。"@
}

/// Decides what saving writes, given whether the main file exists and, if
/// so, whether it reads and checks well. A good main file becomes the
/// backup before it is replaced; an unreadable one is never overwritten.
pub fn plan_save(main_exists: bool, main_reads: bool) -> (r: SavePlan)
    ensures
        !main_exists ==> r == (SavePlan::Write { keep_backup: false }),
        main_exists && main_reads ==> r == (SavePlan::Write { keep_backup: true }),
        main_exists && !main_reads ==> (r matches SavePlan::Refuse(msg) && msg@ == unreadable_main_message()),
{
    if !main_exists {
        SavePlan::Write { keep_backup: false }
    } else if main_reads {
        SavePlan::Write { keep_backup: true }
    } else {
        SavePlan::Refuse(lit("数据文件无法读取，已停止保存以保护原文件。"))
    }
}

} // verus!
