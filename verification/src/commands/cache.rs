//! The command on the caches of service discovery.
use vstd::prelude::*;

use crate::error::{Error, Payload};
use crate::fs::walk::{eligible_names, names_in, DirEntry};
use crate::json::{
    array_view, distinct_keys, entries_of, items_of, object_view, text_value, valid, Json, Number,
    NumberModel, Segment, Value,
};
use crate::json_path::{json_get, key_leads_to_its_entry};
use crate::text::{digits, optional_str, same_text, texts, unsigned_text};

verus! {

/// What the command is asked for.
#[derive(Debug, Clone, Copy, PartialEq, Eq, Structural)]
pub enum CacheCmds {
    /// To list the cached files.
    Status,
    /// To remove the cached files.
    Clear,
}

/// What the chosen subcommand asks for.
pub fn cache_subcommand(name: Option<&str>) -> (r: Result<CacheCmds, Error>)
    ensures
        if optional_str(name) == Some("status"@) {
            r == Ok::<CacheCmds, Error>(CacheCmds::Status)
        } else if optional_str(name) == Some("clear"@) {
            r == Ok::<CacheCmds, Error>(CacheCmds::Clear)
        } else {
            r matches Err(Error::Wrapped(Payload::Other(message))) && message@
                == "Unknown cache subcommand"@
        },
{
    if let Some(chosen) = name {
        if same_text(chosen, "status") {
            return Ok(CacheCmds::Status);
        }
        if same_text(chosen, "clear") {
            return Ok(CacheCmds::Clear);
        }
    }
    Err(Error::other("Unknown cache subcommand"))
}

/// A cached file, and when it was last changed: in seconds since the epoch,
/// where that is known.
#[derive(Debug)]
pub struct CachedFile {
    pub name: String,
    pub update_time: Option<u64>,
}

/// What is reported of a cached file.
pub open spec fn file_report(name: Seq<char>, update_time: u64) -> Json {
    Json::Object(
        seq![
            ("file"@, Json::String(name)),
            ("update_time"@, Json::Number(NumberModel::Int(update_time as int))),
        ],
    )
}

/// What is reported of the first `n` files: those whose last change is known,
/// in their order.
pub open spec fn file_reports(files: Seq<CachedFile>, n: int) -> Seq<Json>
    decreases n,
{
    if n <= 0 {
        Seq::empty()
    } else {
        let before = file_reports(files, n - 1);
        match files[n - 1].update_time {
            Some(time) => before.push(file_report(files[n - 1].name@, time)),
            None => before,
        }
    }
}

proof fn file_reports_are_valid(files: Seq<CachedFile>, n: int)
    requires
        n <= files.len(),
    ensures
        valid(Json::Array(file_reports(files, n))),
    decreases n,
{
    if n > 0 {
        file_reports_are_valid(files, n - 1);
        reveal_with_fuel(valid, 2);
        reveal_strlit("file");
        reveal_strlit("update_time");
        assert("file"@.len() != "update_time"@.len());
        assert forall|time: u64| valid(#[trigger] file_report(files[n - 1].name@, time)) by {}
        let before = file_reports(files, n - 1);
        assert forall|i: int| 0 <= i < file_reports(files, n).len() implies valid(
            #[trigger] file_reports(files, n)[i],
        ) by {
            if i < before.len() {
                assert(valid(before[i]));
            }
        }
    }
}

/// What is reported of the cached files.
pub fn status_report(files: &[CachedFile]) -> (r: Value)
    ensures
        r@ == Json::Array(file_reports(files@, files@.len() as int)),
        valid(r@),
{
    let mut out: Vec<Value> = Vec::new();
    let mut i: usize = 0;
    assert(items_of(out@) =~= Seq::empty());
    while i < files.len()
        invariant
            i <= files@.len(),
            items_of(out@) == file_reports(files@, i as int),
        decreases files@.len() - i,
    {
        if let Some(time) = files[i].update_time {
            let entries: Vec<(String, Value)> = vec![
                ("file".to_owned(), text_value(files[i].name.as_str())),
                ("update_time".to_owned(), Value::Number(Number::PosInt(time))),
            ];
            let ghost before = out@;
            proof {
                object_view(entries);
                assert(entries_of(entries@) =~= file_report(files@[i as int].name@, time)->Object_0);
            }
            out.push(Value::Object(entries));
            assert(items_of(out@) =~= items_of(before).push(
                file_report(files@[i as int].name@, time),
            ));
        }
        i += 1;
    }
    proof {
        array_view(out);
        file_reports_are_valid(files@, files@.len() as int);
    }
    Value::Array(out)
}

/// How the removal of a file ended.
#[derive(Debug)]
pub enum Removal {
    /// It is gone.
    Removed,
    /// It may not be touched.
    Refused(Error),
    /// It is still there, for another reason.
    Failed,
}

/// The removal of the cached files, one after the other.
#[derive(Debug)]
pub struct CacheClear {
    pending: Vec<String>,
    removed: Vec<String>,
}

/// What the removal stands for: the files that are left to remove, and those
/// that are gone.
#[verifier::ext_equal]
pub struct ClearModel {
    pub pending: Seq<Seq<char>>,
    pub removed: Seq<Seq<char>>,
}

impl View for CacheClear {
    type V = ClearModel;

    closed spec fn view(&self) -> ClearModel {
        ClearModel { pending: texts(self.pending@), removed: texts(self.removed@) }
    }
}

/// What is reported of the removed files.
pub open spec fn clear_report(removed: Seq<Seq<char>>) -> Json {
    if removed.len() == 0 {
        Json::Object(
            seq![
                ("status"@, Json::String("success"@)),
                ("message"@, Json::String("没有需要清除的缓存文件。"@)),
            ],
        )
    } else {
        Json::Object(
            seq![
                ("status"@, Json::String("success"@)),
                (
                    "message"@,
                    Json::String("已清除 "@ + digits(removed.len()) + " 个缓存文件。"@),
                ),
                ("removed"@, Json::Array(removed.map_values(|name: Seq<char>| Json::String(name)))),
            ],
        )
    }
}

proof fn clear_report_is_valid(removed: Seq<Seq<char>>)
    ensures
        valid(clear_report(removed)),
{
    reveal_with_fuel(valid, 3);
    reveal_strlit("status");
    reveal_strlit("message");
    reveal_strlit("removed");
    assert("message"@[0] != "removed"@[0]);
    let names = removed.map_values(|name: Seq<char>| Json::String(name));
    assert(valid(Json::Array(names)));
}

/// The removed ones among the files, in their order.
pub open spec fn gone(files: Seq<Seq<char>>, outcomes: Seq<Removal>) -> Seq<Seq<char>>
    decreases outcomes.len(),
{
    if outcomes.len() == 0 || files.len() == 0 {
        Seq::empty()
    } else {
        let rest = gone(files.drop_first(), outcomes.drop_first());
        if outcomes[0] is Removed {
            seq![files[0]] + rest
        } else {
            rest
        }
    }
}

/// The state after some outcomes.
pub open spec fn after_outcomes(state: ClearModel, outcomes: Seq<Removal>) -> ClearModel
    decreases outcomes.len(),
{
    if outcomes.len() == 0 || state.pending.len() == 0 {
        state
    } else {
        after_outcomes(state.after(outcomes[0]), outcomes.drop_first())
    }
}

impl ClearModel {
    /// The state after one outcome: the file is dealt with, and counts where
    /// it is gone.
    pub open spec fn after(self, outcome: Removal) -> ClearModel {
        ClearModel {
            pending: self.pending.drop_first(),
            removed: if outcome is Removed {
                self.removed.push(self.pending[0])
            } else {
                self.removed
            },
        }
    }
}

impl CacheClear {
    /// The removal of the files among the entries of the directory. A
    /// directory that cannot be listed has none.
    pub fn new(entries: &[DirEntry]) -> (r: CacheClear)
        ensures
            r@ == (ClearModel {
                pending: eligible_names(entries@, true, entries@.len() as int),
                removed: Seq::empty(),
            }),
    {
        let run = CacheClear { pending: names_in(entries, true), removed: Vec::new() };
        assert(run@.removed =~= Seq::empty());
        run
    }

    /// The file to remove next, if any is left.
    pub fn current(&self) -> (r: Option<&str>)
        ensures
            optional_str(r) == (if self@.pending.len() == 0 {
                None
            } else {
                Some(self@.pending[0])
            }),
    {
        if self.pending.len() == 0 {
            None
        } else {
            Some(self.pending[0].as_str())
        }
    }

    /// Takes in how the removal of the current file ended: a refusal ends the
    /// whole run with its error, and any other failure is passed over.
    pub fn step(&mut self, outcome: Removal) -> (r: Result<(), Error>)
        requires
            old(self)@.pending.len() > 0,
        ensures
            final(self)@ == old(self)@.after(outcome),
            r == (match outcome {
                Removal::Refused(error) => Err::<(), Error>(error),
                _ => Ok::<(), Error>(()),
            }),
    {
        let ghost pending = self.pending@;
        let ghost removed = self.removed@;
        let name = self.pending.remove(0);
        assert(texts(self.pending@) =~= texts(pending).drop_first());
        match outcome {
            Removal::Removed => {
                self.removed.push(name);
                assert(texts(self.removed@) =~= texts(removed).push(texts(pending)[0]));
                Ok(())
            },
            Removal::Refused(error) => Err(error),
            Removal::Failed => Ok(()),
        }
    }

    /// What is reported of the removed files.
    pub fn report(self) -> (r: Value)
        ensures
            r@ == clear_report(self@.removed),
            valid(r@),
    {
        let mut entries: Vec<(String, Value)> = vec![("status".to_owned(), text_value("success"))];
        let ghost removed = self@.removed;
        if self.removed.len() == 0 {
            entries.push(("message".to_owned(), text_value("没有需要清除的缓存文件。")));
        } else {
            let mut message: String = "已清除 ".to_owned();
            message.append(unsigned_text(self.removed.len() as u64).as_str());
            message.append(" 个缓存文件。");
            entries.push(("message".to_owned(), Value::String(message)));
            let mut names: Vec<Value> = Vec::new();
            let mut i: usize = 0;
            while i < self.removed.len()
                invariant
                    i <= self.removed@.len(),
                    names@.len() == i,
                    removed == texts(self.removed@),
                    forall|j: int|
                        0 <= j < i ==> (#[trigger] names@[j])@ == Json::String(removed[j]),
                decreases self.removed@.len() - i,
            {
                names.push(text_value(self.removed[i].as_str()));
                i += 1;
            }
            proof {
                array_view(names);
                assert(items_of(names@) =~= removed.map_values(
                    |name: Seq<char>| Json::String(name),
                ));
            }
            entries.push(("removed".to_owned(), Value::Array(names)));
        }
        proof {
            object_view(entries);
            assert(entries_of(entries@) =~= clear_report(removed)->Object_0);
            clear_report_is_valid(removed);
        }
        Value::Object(entries)
    }
}

/// Once every file is dealt with, the removed ones are those whose removal
/// succeeded, in their order; what failed for another reason does not stop the
/// others.
pub proof fn clearing_goes_on(files: Seq<Seq<char>>, outcomes: Seq<Removal>, removed: Seq<Seq<char>>)
    requires
        outcomes.len() == files.len(),
    ensures
        ({
            let end = after_outcomes(ClearModel { pending: files, removed }, outcomes);
            &&& end.pending.len() == 0
            &&& end.removed == removed + gone(files, outcomes)
        }),
    decreases files.len(),
{
    let state = ClearModel { pending: files, removed };
    if files.len() == 0 {
        assert(removed + gone(files, outcomes) =~= removed);
    } else {
        let next = state.after(outcomes[0]);
        clearing_goes_on(next.pending, outcomes.drop_first(), next.removed);
        assert(next.removed + gone(files.drop_first(), outcomes.drop_first()) =~= removed + gone(
            files,
            outcomes,
        ));
    }
}

proof fn reports_of_first(files: Seq<CachedFile>, more: Seq<CachedFile>, n: int)
    requires
        n <= files.len(),
    ensures
        file_reports(files + more, n) == file_reports(files, n),
    decreases n,
{
    if n > 0 {
        reports_of_first(files, more, n - 1);
        assert((files + more)[n - 1] == files[n - 1]);
    }
}

/// The cached files are reported one by one, in their order: each with its name
/// and the time of its last change, and not at all where that is not known.
pub proof fn files_are_reported_in_order(files: Seq<CachedFile>, file: CachedFile)
    ensures
        file_reports(Seq::empty(), 0) =~= Seq::empty(),
        ({
            let before = file_reports(files, files.len() as int);
            let after = file_reports(files.push(file), files.len() as int + 1);
            match file.update_time {
                Some(time) => after == before.push(
                    Json::Object(
                        seq![
                            ("file"@, Json::String(file.name@)),
                            ("update_time"@, Json::Number(NumberModel::Int(time as int))),
                        ],
                    ),
                ),
                None => after == before,
            }
        }),
{
    reports_of_first(files, seq![file], files.len() as int);
    assert(files + seq![file] =~= files.push(file));
}

/// The files that are gone are told one by one, in their order: each whose
/// removal succeeded, and no other.
pub proof fn removed_files_are_gone(
    files: Seq<Seq<char>>,
    outcomes: Seq<Removal>,
    file: Seq<char>,
    outcome: Removal,
)
    requires
        files.len() == outcomes.len(),
    ensures
        gone(Seq::empty(), Seq::empty()) =~= Seq::empty(),
        outcome is Removed ==> gone(files.push(file), outcomes.push(outcome)) == gone(
            files,
            outcomes,
        ).push(file),
        outcome !is Removed ==> gone(files.push(file), outcomes.push(outcome)) == gone(
            files,
            outcomes,
        ),
    decreases files.len(),
{
    let f = files.push(file);
    let o = outcomes.push(outcome);
    if files.len() == 0 {
        assert(f.drop_first() =~= Seq::empty());
        assert(o.drop_first() =~= Seq::empty());
        assert(gone(f.drop_first(), o.drop_first()) =~= Seq::empty());
        assert(gone(files, outcomes) =~= Seq::empty());
        assert(seq![file] + Seq::<Seq<char>>::empty() =~= Seq::<Seq<char>>::empty().push(file));
    } else {
        removed_files_are_gone(files.drop_first(), outcomes.drop_first(), file, outcome);
        assert(f.drop_first() =~= files.drop_first().push(file));
        assert(o.drop_first() =~= outcomes.drop_first().push(outcome));
        assert(f[0] == files[0] && o[0] == outcomes[0]);
        let rest = gone(files.drop_first(), outcomes.drop_first());
        assert(seq![files[0]] + rest.push(file) =~= (seq![files[0]] + rest).push(file));
    }
}

/// The report on a removal tells success, how many files are gone, and which;
/// where none is, it says so and names none.
pub proof fn report_tells_what_is_gone(removed: Seq<Seq<char>>, i: int)
    ensures
        ({
            let report = clear_report(removed);
            let names = seq![Segment::Key("removed"@)];
            let message = json_get(report, seq![Segment::Key("message"@)]);
            &&& json_get(report, seq![Segment::Key("status"@)]) == Some(Json::String("success"@))
            &&& removed.len() == 0 ==> json_get(report, names) is None && message == Some(
                Json::String("没有需要清除的缓存文件。"@),
            )
            &&& removed.len() > 0 ==> message == Some(
                Json::String("已清除 "@ + digits(removed.len()) + " 个缓存文件。"@),
            ) && (json_get(report, names) matches Some(Json::Array(list)) && list.len()
                == removed.len() && (0 <= i < list.len() ==> list[i] == Json::String(removed[i])))
        }),
{
    clear_report_is_valid(removed);
    reveal_strlit("status");
    reveal_strlit("message");
    reveal_strlit("removed");
    assert("status"@.len() == 6 && "message"@.len() == 7 && "removed"@.len() == 7);
    assert("message"@[0] == 'm' && "removed"@[0] == 'r');
    let none = Seq::<Segment>::empty();
    if let Json::Object(entries) = clear_report(removed) {
        assert(distinct_keys(entries));
        assert(entries[0].0 == "status"@ && entries[1].0 == "message"@);
        key_leads_to_its_entry(entries, "status"@, none, 0);
        key_leads_to_its_entry(entries, "message"@, none, 1);
        key_leads_to_its_entry(entries, "removed"@, none, 2);
        assert(seq![Segment::Key("status"@)] + none =~= seq![Segment::Key("status"@)]);
        assert(seq![Segment::Key("message"@)] + none =~= seq![Segment::Key("message"@)]);
        assert(seq![Segment::Key("removed"@)] + none =~= seq![Segment::Key("removed"@)]);
        assert(json_get(entries[0].1, none) == Some(entries[0].1));
        assert(json_get(entries[1].1, none) == Some(entries[1].1));
        if removed.len() > 0 {
            assert(entries[2].0 == "removed"@);
            assert(json_get(entries[2].1, none) == Some(entries[2].1));
        } else {
            assert forall|j: int| 0 <= j < entries.len() implies (#[trigger] entries[j]).0
                != "removed"@ by {}
        }
    }
}

} // verus!
