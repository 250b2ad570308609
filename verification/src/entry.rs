//! Usage records as the entries that reports are made of.

use vstd::prelude::*;

use crate::clock::{
    format_date_tz, format_rfc3339_millis, in_calendar, rfc3339_millis, zoned_date,
};
use crate::parser::{CursorUsageRecord, RecordView};
use crate::pricing::{
    calculate_cursor_cost, cost_source, missing_cursor_pricing, opt_check, pricing_check,
    CheckView, CostMode, CostView, CursorCost, PricingCheck,
};
use crate::text::opt_text;
use crate::usage::{RecordedCost, TokenUsageRaw};

verus! {

/// The message of a usage entry.
#[derive(Debug)]
pub struct UsageMessage {
    pub usage: TokenUsageRaw,
    pub model: Option<String>,
    pub id: Option<String>,
}

/// One line of usage, as other sources log it.
#[derive(Debug)]
pub struct UsageEntry {
    pub session_id: Option<String>,
    pub timestamp: Option<String>,
    pub version: Option<String>,
    pub message: UsageMessage,
    pub cost_usd: Option<RecordedCost>,
    pub request_id: Option<String>,
    pub is_api_error_message: Option<bool>,
    pub is_sidechain: Option<bool>,
}

/// One turn as reports take it. `date` and the text of the timestamp are absent
/// where the instant does not lie in the calendar.
#[derive(Debug)]
pub struct LoadedEntry {
    pub date: Option<String>,
    pub timestamp: i64,
    pub project: String,
    pub session_id: String,
    pub project_path: String,
    pub cost: CursorCost,
    pub credits: Option<u64>,
    pub extra_total_tokens: u64,
    pub message_count: Option<u64>,
    pub model: Option<String>,
    pub usage_limit_reset_time: Option<i64>,
    pub missing_pricing: Option<PricingCheck>,
    pub data: UsageEntry,
}

/// The mathematical view of a usage message.
#[verifier::ext_equal]
pub struct MessageView {
    pub usage: TokenUsageRaw,
    pub model: Option<Seq<char>>,
    pub id: Option<Seq<char>>,
}

/// The mathematical view of a usage entry.
#[verifier::ext_equal]
pub struct UsageEntryView {
    pub session_id: Option<Seq<char>>,
    pub timestamp: Option<Seq<char>>,
    pub version: Option<Seq<char>>,
    pub message: MessageView,
    pub cost_usd: Option<RecordedCost>,
    pub request_id: Option<Seq<char>>,
    pub is_api_error_message: Option<bool>,
    pub is_sidechain: Option<bool>,
}

/// The mathematical view of a loaded entry.
#[verifier::ext_equal]
pub struct EntryView {
    pub date: Option<Seq<char>>,
    pub timestamp: i64,
    pub project: Seq<char>,
    pub session_id: Seq<char>,
    pub project_path: Seq<char>,
    pub cost: CostView,
    pub credits: Option<u64>,
    pub extra_total_tokens: u64,
    pub message_count: Option<u64>,
    pub model: Option<Seq<char>>,
    pub usage_limit_reset_time: Option<i64>,
    pub missing_pricing: Option<CheckView>,
    pub data: UsageEntryView,
}

impl View for UsageMessage {
    type V = MessageView;

    open spec fn view(&self) -> MessageView {
        MessageView { usage: self.usage, model: opt_text(self.model), id: opt_text(self.id) }
    }
}

impl View for UsageEntry {
    type V = UsageEntryView;

    open spec fn view(&self) -> UsageEntryView {
        UsageEntryView {
            session_id: opt_text(self.session_id),
            timestamp: opt_text(self.timestamp),
            version: opt_text(self.version),
            message: self.message@,
            cost_usd: self.cost_usd,
            request_id: opt_text(self.request_id),
            is_api_error_message: self.is_api_error_message,
            is_sidechain: self.is_sidechain,
        }
    }
}

impl View for LoadedEntry {
    type V = EntryView;

    open spec fn view(&self) -> EntryView {
        EntryView {
            date: opt_text(self.date),
            timestamp: self.timestamp,
            project: self.project@,
            session_id: self.session_id@,
            project_path: self.project_path@,
            cost: self.cost@,
            credits: self.credits,
            extra_total_tokens: self.extra_total_tokens,
            message_count: self.message_count,
            model: opt_text(self.model),
            usage_limit_reset_time: self.usage_limit_reset_time,
            missing_pricing: opt_check(self.missing_pricing),
            data: self.data@,
        }
    }
}

/// The views of a list of entries.
pub open spec fn entry_views(list: Seq<LoadedEntry>) -> Seq<EntryView> {
    Seq::new(list.len(), |i: int| list[i]@)
}

/// The entry of a record: its date in the time zone, its identity, and where
/// its cost comes from.
pub open spec fn entry_of(
    record: RecordView,
    zone: jiff::tz::TimeZone,
    mode: CostMode,
) -> EntryView {
    EntryView {
        date: zoned_date(record.timestamp, zone),
        timestamp: record.timestamp,
        project: "cursor"@,
        session_id: record.session_id,
        project_path: record.project_path,
        cost: cost_source(record, mode),
        credits: None,
        extra_total_tokens: 0,
        message_count: None,
        model: Some(record.model),
        usage_limit_reset_time: None,
        missing_pricing: pricing_check(record, mode),
        data: UsageEntryView {
            session_id: Some(record.session_id),
            timestamp: rfc3339_millis(record.timestamp),
            version: None,
            message: MessageView {
                usage: record.usage,
                model: Some(record.model),
                id: Some(record.message_id),
            },
            cost_usd: record.cost_usd,
            request_id: Some(record.message_id),
            is_api_error_message: None,
            is_sidechain: None,
        },
    }
}

/// The entries of a list of records.
pub open spec fn entries_of(
    records: Seq<RecordView>,
    zone: jiff::tz::TimeZone,
    mode: CostMode,
) -> Seq<EntryView> {
    Seq::new(records.len(), |i: int| entry_of(records[i], zone, mode))
}

/// The entry of a record: its date in the time zone, its identity, and where
/// its cost comes from.
pub fn record_to_loaded_entry(
    record: CursorUsageRecord,
    zone: &jiff::tz::TimeZone,
    mode: CostMode,
) -> (entry: LoadedEntry)
    ensures
        entry@ == entry_of(record@, *zone, mode),
        entry.date is Some <==> in_calendar(record.timestamp),
        entry.data.timestamp is Some <==> in_calendar(record.timestamp),
{
    let date = format_date_tz(record.timestamp, zone);
    let timestamp_text = format_rfc3339_millis(record.timestamp);
    let cost = calculate_cursor_cost(&record, mode);
    let missing_pricing = missing_cursor_pricing(&record, mode);
    let data = UsageEntry {
        session_id: Some(record.session_id.clone()),
        timestamp: timestamp_text,
        version: None,
        message: UsageMessage {
            usage: record.usage,
            model: Some(record.model.clone()),
            id: Some(record.message_id.clone()),
        },
        cost_usd: record.cost_usd,
        request_id: Some(record.message_id),
        is_api_error_message: None,
        is_sidechain: None,
    };
    LoadedEntry {
        date,
        timestamp: record.timestamp,
        project: "cursor".to_owned(),
        session_id: record.session_id,
        project_path: record.project_path,
        cost,
        credits: None,
        extra_total_tokens: 0,
        message_count: None,
        model: Some(record.model),
        usage_limit_reset_time: None,
        missing_pricing,
        data,
    }
}

} // verus!
