//! What holds of the operations taken together.

use vstd::prelude::*;
use crate::codec::RecordView;
use crate::codec::count_at;
use crate::codec::data_records;
use crate::codec::data_region;
use crate::codec::has_magic;
use crate::codec::le32_at;
use crate::codec::record_at;
use crate::codec::header_bytes;
use crate::codec::lemma_data_records_built;
use crate::codec::lemma_header_built;
use crate::codec::record_fits;
use crate::codec::records_at;
use crate::common::FORMAT_VERSION;
use crate::common::LEGACY_FORMAT_VERSION;
use crate::display::metadata_lines;
use crate::error::FormatError;
use crate::error::MetadataError;
use crate::error::XpakError;
use crate::header::data_offset;
use crate::header::header_of;
use crate::header::is_legacy;
use crate::header::lemma_header_of_data_offset;
use crate::header::metadata_of_text;
use crate::header::metadata_text;
use crate::metadata::MetadataView;
use crate::pak::archive_of;
use crate::pak::given_entries;
use crate::pak::pack_metadata;
use crate::pak::packed;
use crate::pak::packed_record;
use crate::pak::packed_records;
use crate::pak::record_path;
use crate::text::has_separator;
use crate::text::lemma_base_name;
use crate::text::normalized;
use crate::unpak::ListingView;
use crate::unpak::chosen;
use crate::unpak::infos_of;
use crate::unpak::is_selected;
use crate::unpak::listed;
use crate::unpak::listing_of;
use crate::unpak::total_size;
use crate::unpak::unpacked;
use crate::unpak::unpacked_from;
use crate::update::applied;
use crate::view_pak_structure::inspected;
use crate::update::update_base;
use crate::update::updated;

verus! {

/// Whether the metadata `m` is read again as it was from the text that is
/// written for it.
pub open spec fn reads_back(m: MetadataView) -> bool {
    metadata_of_text(metadata_text(m)) == Ok::<MetadataView, MetadataError>(m)
}

/// The format version that this library writes is one with an end marker.
pub proof fn lemma_current_format_has_marker()
    ensures
        !is_legacy(FORMAT_VERSION@),
{
    reveal_strlit("1.3");
    reveal_strlit("1.0");
    assert(FORMAT_VERSION@[2] != LEGACY_FORMAT_VERSION@[2]);
}

/// Behind any header, a data region that was written gives back its
/// records: the region declares their number, and a read of all files hands
/// out every record with its path and its content, in the order in which
/// they were written.
pub proof fn lemma_data_region_roundtrip(text: Seq<u8>, rs: Seq<RecordView>)
    requires
        text.len() <= u32::MAX,
        rs.len() <= u32::MAX,
        forall|i: int| 0 <= i < rs.len() ==> record_fits(#[trigger] rs[i]),
    ensures
        unpacked_from(
            header_bytes(text, true) + data_region(rs),
            header_bytes(text, true).len() as int,
            rs.len() as u32,
            None,
        ) == Ok::<Seq<RecordView>, FormatError>(rs),
{
    let header = header_bytes(text, true);
    let bytes = header + data_region(rs);
    assert(bytes =~= header + data_region(rs) + Seq::<u8>::empty());
    lemma_data_records_built(header, rs, Seq::empty());
    lemma_chosen_all(rs);
}

/// Where nothing is selected away, every record is chosen.
pub proof fn lemma_chosen_all(rs: Seq<RecordView>)
    ensures
        chosen(rs, None) == rs,
    decreases rs.len(),
{
    if rs.len() > 0 {
        lemma_chosen_all(rs.drop_last());
        assert(rs.drop_last().push(rs.last()) =~= rs);
    } else {
        assert(rs =~= Seq::<RecordView>::empty());
    }
}

/// The header of an archive that was written around the metadata `m` is
/// read again, where the text of `m` is read again as `m` and `m` declares
/// a format version with end marker: the metadata is `m`, and the data
/// region begins where the header ends.
pub proof fn lemma_header_roundtrip(m: MetadataView, data: Seq<u8>)
    requires
        metadata_text(m).len() <= u32::MAX,
        reads_back(m),
        !is_legacy(m.format_version),
    ensures
        header_of(header_bytes(metadata_text(m), true) + data) == Ok::<(MetadataView, int), XpakError>(
            (m, header_bytes(metadata_text(m), true).len() as int),
        ),
        (header_bytes(metadata_text(m), true) + data).skip(
            header_bytes(metadata_text(m), true).len() as int,
        ) == data,
{
    lemma_header_built(metadata_text(m), true, data);
}

/// What an archive that was packed is made of: the header with the metadata
/// of the files, and the data region with their records, all of which fit
/// the format.
pub proof fn lemma_packed_shape(
    files: Seq<RecordView>,
    flat: bool,
    description: Option<Seq<char>>,
    user_meta: Option<Seq<char>>,
    created_at: Seq<char>,
)
    requires
        packed(files, flat, description, user_meta, created_at) is Ok,
    ensures
        given_entries(user_meta) is Ok,
        ({
            let m = pack_metadata(files, flat, description, given_entries(user_meta)->Ok_0, created_at);
            let rs = packed_records(files, flat);
            &&& packed(files, flat, description, user_meta, created_at)->Ok_0 == archive_of(m, rs)
            &&& metadata_text(m).len() <= u32::MAX
            &&& rs.len() == files.len()
            &&& rs.len() <= u32::MAX
            &&& m.files_count == rs.len()
            &&& total_size(files) <= u64::MAX
            &&& m.total_size == total_size(rs)
            &&& m.files == infos_of(rs)
            &&& m.format_version == FORMAT_VERSION@
            &&& forall|i: int| 0 <= i < rs.len() ==> record_fits(#[trigger] rs[i])
        }),
{
    let rs = packed_records(files, flat);
    assert forall|i: int| 0 <= i < rs.len() implies record_fits(#[trigger] rs[i]) by {
        assert(record_fits(packed_record(files[i], flat)));
    }
    lemma_packed_total(files, flat);
    crate::pak::lemma_total_size_nonnegative(files);
}

/// Packing, then unpacking everything, gives back every file: its content
/// byte for byte, under its path with forward slashes (cut down to the base
/// name where the archive was packed flat), in the order of packing. This
/// holds where the metadata text that was written is read again as it was.
pub proof fn lemma_pack_unpack_roundtrip(
    files: Seq<RecordView>,
    flat: bool,
    description: Option<Seq<char>>,
    user_meta: Option<Seq<char>>,
    created_at: Seq<char>,
)
    requires
        packed(files, flat, description, user_meta, created_at) is Ok,
        reads_back(
            pack_metadata(files, flat, description, given_entries(user_meta)->Ok_0, created_at),
        ),
    ensures
        unpacked(packed(files, flat, description, user_meta, created_at)->Ok_0, None) == Ok::<
            Seq<RecordView>,
            XpakError,
        >(packed_records(files, flat)),
{
    let m = pack_metadata(files, flat, description, given_entries(user_meta)->Ok_0, created_at);
    let rs = packed_records(files, flat);
    lemma_packed_shape(files, flat, description, user_meta, created_at);
    lemma_current_format_has_marker();
    lemma_header_roundtrip(m, data_region(rs));
    lemma_data_region_roundtrip(metadata_text(m), rs);
}

/// A path of a flat archive holds no separator.
pub proof fn lemma_flat_path_has_no_separator(path: Seq<char>)
    ensures
        !has_separator(record_path(path, true)),
{
    lemma_base_name(normalized(path));
}

/// No record of a flat archive has a separator in its path.
pub proof fn lemma_flat_records_have_no_separator(files: Seq<RecordView>)
    ensures
        forall|i: int|
            0 <= i < files.len() ==> !has_separator((#[trigger] packed_records(files, true)[i]).path),
{
    assert forall|i: int| 0 <= i < files.len() implies !has_separator(
        (#[trigger] packed_records(files, true)[i]).path,
    ) by {
        lemma_flat_path_has_no_separator(files[i].path);
    }
}

/// The directory that unpacked files leave when they are written one after
/// the other: under each path the content that was written last.
pub open spec fn written(files: Seq<RecordView>) -> Map<Seq<char>, Seq<u8>>
    decreases files.len(),
{
    if files.len() == 0 {
        Map::empty()
    } else {
        written(files.drop_last()).insert(files.last().path, files.last().content)
    }
}

/// Of the files that share a path, the last one is the one that stays: the
/// directory holds its content under that path, and holds nothing under a
/// path that no file has.
pub proof fn lemma_last_write_wins(files: Seq<RecordView>, i: int)
    requires
        0 <= i < files.len(),
        forall|j: int| i < j < files.len() ==> (#[trigger] files[j]).path != files[i].path,
    ensures
        written(files).contains_key(files[i].path),
        written(files)[files[i].path] == files[i].content,
    decreases files.len(),
{
    if i < files.len() - 1 {
        let front = files.drop_last();
        assert(files.last() == files[files.len() - 1]);
        assert forall|j: int| i < j < front.len() implies (#[trigger] front[j]).path != front[i].path by {
            assert(front[j] == files[j]);
        }
        lemma_last_write_wins(front, i);
    }
}

/// The directory holds a path only where some file has it.
pub proof fn lemma_written_paths(files: Seq<RecordView>, path: Seq<char>)
    ensures
        written(files).contains_key(path) <==> exists|i: int|
            0 <= i < files.len() && (#[trigger] files[i]).path == path,
    decreases files.len(),
{
    if files.len() > 0 {
        let front = files.drop_last();
        lemma_written_paths(front, path);
        if written(files).contains_key(path) {
            if files.last().path == path {
                assert(files[files.len() - 1].path == path);
            } else {
                let i = choose|i: int| 0 <= i < front.len() && (#[trigger] front[i]).path == path;
                assert(files[i].path == path);
            }
        }
        if exists|i: int| 0 <= i < files.len() && (#[trigger] files[i]).path == path {
            let i = choose|i: int| 0 <= i < files.len() && (#[trigger] files[i]).path == path;
            if i < front.len() {
                assert(front[i].path == path);
            }
        }
    }
}

/// The chosen records are the records that the selection asks for: each of
/// them is a record of the run with a selected path, and each record of the
/// run with a selected path is among them.
pub proof fn lemma_chosen(rs: Seq<RecordView>, selection: Option<Seq<Seq<char>>>)
    ensures
        forall|k: int|
            0 <= k < chosen(rs, selection).len() ==> is_selected(
                selection,
                (#[trigger] chosen(rs, selection)[k]).path,
            ) && rs.contains(chosen(rs, selection)[k]),
        forall|i: int|
            0 <= i < rs.len() && is_selected(selection, (#[trigger] rs[i]).path) ==> chosen(
                rs,
                selection,
            ).contains(rs[i]),
        chosen(rs, selection).len() <= rs.len(),
    decreases rs.len(),
{
    if rs.len() > 0 {
        let front = rs.drop_last();
        let last = rs.last();
        lemma_chosen(front, selection);
        let c = chosen(rs, selection);
        let cf = chosen(front, selection);
        assert forall|k: int| 0 <= k < c.len() implies is_selected(selection, (#[trigger] c[k]).path)
            && rs.contains(c[k]) by {
            if k < cf.len() {
                assert(c[k] == cf[k]);
                assert(front.contains(cf[k]));
                let w = choose|w: int| 0 <= w < front.len() && front[w] == cf[k];
                assert(rs[w] == cf[k]);
            } else {
                assert(c[k] == last);
                assert(rs[rs.len() - 1] == last);
            }
        }
        assert forall|i: int| 0 <= i < rs.len() && is_selected(selection, (#[trigger] rs[i]).path)
        implies c.contains(rs[i]) by {
            if i < front.len() {
                assert(front[i] == rs[i]);
                assert(cf.contains(rs[i]));
                let w = choose|w: int| 0 <= w < cf.len() && cf[w] == rs[i];
                assert(c[w] == rs[i]);
            } else {
                assert(c[c.len() - 1] == rs[i]);
            }
        }
    }
}

/// Unpacking with a selection gives those files of the archive that the
/// selection asks for, and no others, in their order. The records that are
/// not asked for are stepped over as they are when everything is unpacked:
/// the selected read fails exactly where the full read fails, with the same
/// error.
pub proof fn lemma_selective_unpack(bytes: Seq<u8>, paths: Seq<Seq<char>>)
    ensures
        match unpacked(bytes, None) {
            Ok(all) => unpacked(bytes, Some(paths)) == Ok::<Seq<RecordView>, XpakError>(
                chosen(all, Some(paths)),
            ),
            Err(e) => unpacked(bytes, Some(paths)) == Err::<Seq<RecordView>, XpakError>(e),
        },
{
    match header_of(bytes) {
        Ok((m, start)) => {
            match count_at(bytes, start) {
                Ok(n) => {
                    if n == m.files_count {
                        match records_at(bytes, start + 4, n as nat) {
                            Ok(rs) => {
                                lemma_chosen_all(rs);
                            },
                            Err(_) => {},
                        }
                    }
                },
                Err(_) => {},
            }
        },
        Err(_) => {},
    }
}

/// An update of the metadata leaves the data region as it was: behind the
/// new header the new archive holds every byte that the old archive holds
/// from the beginning of its data region on, and nothing else.
pub proof fn lemma_update_keeps_data_region(
    bytes: Seq<u8>,
    description: Option<Seq<char>>,
    user_meta: Option<Seq<char>>,
    all: bool,
    created_at: Seq<char>,
)
    requires
        updated(bytes, description, user_meta, all, created_at) is Ok,
    ensures
        data_offset(bytes) is Ok,
        0 <= data_offset(bytes)->Ok_0 <= bytes.len(),
        ({
            let out = updated(bytes, description, user_meta, all, created_at)->Ok_0;
            let m = applied(
                update_base(bytes, all, created_at)->Ok_0.0,
                description,
                given_entries(user_meta)->Ok_0,
            );
            let kept = bytes.len() - data_offset(bytes)->Ok_0;
            &&& out == header_bytes(metadata_text(m), true) + bytes.skip(data_offset(bytes)->Ok_0)
            &&& out.len() >= kept
            &&& out.skip(out.len() - kept) == bytes.skip(data_offset(bytes)->Ok_0)
        }),
{
    let base = update_base(bytes, all, created_at)->Ok_0;
    let m = applied(base.0, description, given_entries(user_meta)->Ok_0);
    let start = base.1;
    if !all {
        lemma_header_of_data_offset(bytes);
    }
    let header = header_bytes(metadata_text(m), true);
    let out = header + bytes.skip(start);
    assert(out.skip(header.len() as int) =~= bytes.skip(start));
}

/// The format version that an update writes is one with an end marker, as
/// the header that it writes has one.
pub proof fn lemma_updated_format_has_marker(
    m: MetadataView,
    description: Option<Seq<char>>,
    entries: Seq<(Seq<char>, crate::json::JsonView)>,
)
    ensures
        !is_legacy(applied(m, description, entries).format_version),
{
    lemma_current_format_has_marker();
}

/// Where a record is read does not matter: behind any bytes `pre`, the
/// bytes `rest` hold at `pos` the record that they hold at `pos` when they
/// stand alone, and it ends as much later as `pre` is long.
pub proof fn lemma_record_at_shift(pre: Seq<u8>, rest: Seq<u8>, pos: int)
    requires
        0 <= pos,
    ensures
        match record_at(rest, pos) {
            Ok((rec, next)) => record_at(pre + rest, pre.len() + pos) == Ok::<
                (RecordView, int),
                FormatError,
            >((rec, pre.len() + next)),
            Err(e) => record_at(pre + rest, pre.len() + pos) == Err::<(RecordView, int), FormatError>(
                e,
            ),
        },
{
    let all = pre + rest;
    let k = pre.len() as int;
    if pos + 4 <= rest.len() {
        assert(le32_at(all, k + pos) == le32_at(rest, pos));
        let path_start = pos + 4;
        let path_end = path_start + le32_at(rest, pos);
        if path_end <= rest.len() {
            assert(all.subrange(k + path_start, k + path_end) =~= rest.subrange(path_start, path_end));
            if path_end + 4 <= rest.len() {
                assert(le32_at(all, k + path_end) == le32_at(rest, path_end));
                let content_start = path_end + 4;
                let end = content_start + le32_at(rest, path_end);
                if end <= rest.len() {
                    assert(all.subrange(k + content_start, k + end) =~= rest.subrange(
                        content_start,
                        end,
                    ));
                }
            }
        }
    }
}

/// Where a run of records is read does not matter.
pub proof fn lemma_records_at_shift(pre: Seq<u8>, rest: Seq<u8>, pos: int, n: nat)
    requires
        0 <= pos,
    ensures
        records_at(pre + rest, pre.len() + pos, n) == records_at(rest, pos, n),
    decreases n,
{
    if n > 0 {
        lemma_record_at_shift(pre, rest, pos);
        match record_at(rest, pos) {
            Ok((rec, next)) => {
                lemma_records_at_shift(pre, rest, next, (n - 1) as nat);
            },
            Err(_) => {},
        }
    }
}

/// What is unpacked from a data region depends on the region alone, not on
/// what stands before it.
pub proof fn lemma_unpacked_from_region(
    bytes: Seq<u8>,
    start: int,
    declared: u32,
    selection: Option<Seq<Seq<char>>>,
)
    requires
        0 <= start <= bytes.len(),
    ensures
        unpacked_from(bytes, start, declared, selection) == unpacked_from(
            bytes.skip(start),
            0,
            declared,
            selection,
        ),
{
    let pre = bytes.take(start);
    let rest = bytes.skip(start);
    assert(pre + rest =~= bytes);
    if 4 <= rest.len() {
        assert(le32_at(bytes, start) == le32_at(rest, 0));
        lemma_records_at_shift(pre, rest, 4, le32_at(rest, 0) as nat);
    }
}

/// An update that keeps the old metadata keeps every file: what is unpacked
/// from the new archive, for any selection, is what is unpacked from the
/// old one. This holds where the metadata text that was written is read
/// again as it was.
pub proof fn lemma_update_keeps_files(
    bytes: Seq<u8>,
    description: Option<Seq<char>>,
    user_meta: Option<Seq<char>>,
    created_at: Seq<char>,
    selection: Option<Seq<Seq<char>>>,
)
    requires
        updated(bytes, description, user_meta, false, created_at) is Ok,
        reads_back(
            applied(header_of(bytes)->Ok_0.0, description, given_entries(user_meta)->Ok_0),
        ),
    ensures
        unpacked(updated(bytes, description, user_meta, false, created_at)->Ok_0, selection)
            == unpacked(bytes, selection),
{
    let old = header_of(bytes)->Ok_0;
    let m = applied(old.0, description, given_entries(user_meta)->Ok_0);
    let start = old.1;
    let data = bytes.skip(start);
    let header = header_bytes(metadata_text(m), true);
    let out = header + data;
    lemma_updated_format_has_marker(old.0, description, given_entries(user_meta)->Ok_0);
    lemma_header_roundtrip(m, data);
    lemma_unpacked_from_region(bytes, start, old.0.files_count, selection);
    lemma_unpacked_from_region(out, header.len() as int, m.files_count, selection);
}

/// An update that makes the metadata anew declares what the data region
/// holds, whatever the old metadata said: the number of the records, the
/// sum of their content lengths, and their paths and lengths as the file
/// index.
pub proof fn lemma_regenerated_metadata(
    bytes: Seq<u8>,
    description: Option<Seq<char>>,
    user_meta: Option<Seq<char>>,
    created_at: Seq<char>,
)
    requires
        bytes.len() <= u64::MAX,
        updated(bytes, description, user_meta, true, created_at) is Ok,
    ensures
        data_offset(bytes) is Ok,
        data_records(bytes, data_offset(bytes)->Ok_0) is Ok,
        ({
            let rs = data_records(bytes, data_offset(bytes)->Ok_0)->Ok_0;
            let m = applied(
                update_base(bytes, true, created_at)->Ok_0.0,
                description,
                given_entries(user_meta)->Ok_0,
            );
            &&& updated(bytes, description, user_meta, true, created_at)->Ok_0 == header_bytes(
                metadata_text(m),
                true,
            ) + bytes.skip(data_offset(bytes)->Ok_0)
            &&& m.files_count == rs.len()
            &&& m.total_size == total_size(rs)
            &&& m.files == infos_of(rs)
        }),
{
    let start = data_offset(bytes)->Ok_0;
    let rs = data_records(bytes, start)->Ok_0;
    crate::unpak::lemma_records_at_len(bytes, start + 4, count_at(bytes, start)->Ok_0 as nat);
    lemma_total_size_bounded(bytes, start + 4, count_at(bytes, start)->Ok_0 as nat);
}

/// The contents of the records that are read from an archive are parts of
/// the archive that do not overlap, so their lengths add up to no more
/// than the bytes between the first record and the end of the last.
pub proof fn lemma_total_size_bounded(bytes: Seq<u8>, pos: int, n: nat)
    requires
        0 <= pos,
        records_at(bytes, pos, n) is Ok,
    ensures
        0 <= total_size(records_at(bytes, pos, n)->Ok_0),
        n > 0 ==> total_size(records_at(bytes, pos, n)->Ok_0) <= bytes.len() - pos,
    decreases n,
{
    if n > 0 {
        let first = record_at(bytes, pos)->Ok_0;
        let rest = records_at(bytes, first.1, (n - 1) as nat)->Ok_0;
        lemma_total_size_bounded(bytes, first.1, (n - 1) as nat);
        lemma_total_size_prepend(first.0, rest);
    } else {
        assert(total_size(Seq::<RecordView>::empty()) == 0);
    }
}

/// The sum of the content lengths with one more record in front.
pub proof fn lemma_total_size_prepend(r: RecordView, rs: Seq<RecordView>)
    ensures
        total_size(seq![r] + rs) == r.content.len() + total_size(rs),
    decreases rs.len(),
{
    let all = seq![r] + rs;
    if rs.len() == 0 {
        assert(all.drop_last() =~= Seq::<RecordView>::empty());
        assert(total_size(all.drop_last()) == 0);
        assert(all.last() == r);
    } else {
        assert(all.drop_last() =~= seq![r] + rs.drop_last());
        assert(all.last() == rs.last());
        lemma_total_size_prepend(r, rs.drop_last());
    }
}

/// On an archive whose metadata declares what its data region holds, the
/// list from the metadata and the list from a walk over the records are the
/// same: the same paths and lengths in the same order, the same number of
/// files, the same total.
pub proof fn lemma_listings_agree(bytes: Seq<u8>)
    requires
        header_of(bytes) is Ok,
        data_records(bytes, header_of(bytes)->Ok_0.1) is Ok,
        ({
            let m = header_of(bytes)->Ok_0.0;
            let rs = data_records(bytes, header_of(bytes)->Ok_0.1)->Ok_0;
            m.files == infos_of(rs) && m.files_count == rs.len() && m.total_size == total_size(rs)
        }),
    ensures
        listed(bytes, false) == listed(bytes, true),
        listed(bytes, true) == Ok::<ListingView, XpakError>(
            listing_of(data_records(bytes, header_of(bytes)->Ok_0.1)->Ok_0),
        ),
{
    lemma_header_of_data_offset(bytes);
}

/// The sum of the content lengths of the records that are written for a
/// list of files is the sum of the content lengths of the files.
pub proof fn lemma_packed_total(files: Seq<RecordView>, flat: bool)
    ensures
        total_size(packed_records(files, flat)) == total_size(files),
    decreases files.len(),
{
    if files.len() > 0 {
        lemma_packed_total(files.drop_last(), flat);
        assert(packed_records(files, flat).drop_last() =~= packed_records(files.drop_last(), flat));
    }
}

/// On an archive that was packed, the list from the metadata and the list
/// from a walk over the records are the same, and they list the files that
/// were packed. This holds where the metadata text that was written is read
/// again as it was.
pub proof fn lemma_packed_listings_agree(
    files: Seq<RecordView>,
    flat: bool,
    description: Option<Seq<char>>,
    user_meta: Option<Seq<char>>,
    created_at: Seq<char>,
)
    requires
        packed(files, flat, description, user_meta, created_at) is Ok,
        reads_back(
            pack_metadata(files, flat, description, given_entries(user_meta)->Ok_0, created_at),
        ),
    ensures
        listed(packed(files, flat, description, user_meta, created_at)->Ok_0, false) == listed(
            packed(files, flat, description, user_meta, created_at)->Ok_0,
            true,
        ),
        listed(packed(files, flat, description, user_meta, created_at)->Ok_0, true) == Ok::<
            ListingView,
            XpakError,
        >(listing_of(packed_records(files, flat))),
{
    let m = pack_metadata(files, flat, description, given_entries(user_meta)->Ok_0, created_at);
    let rs = packed_records(files, flat);
    let bytes = archive_of(m, rs);
    let header = header_bytes(metadata_text(m), true);
    lemma_packed_shape(files, flat, description, user_meta, created_at);
    lemma_current_format_has_marker();
    lemma_header_roundtrip(m, data_region(rs));
    assert(header_of(bytes) == Ok::<(MetadataView, int), XpakError>((m, header.len() as int)));
    assert(bytes =~= header + data_region(rs) + Seq::<u8>::empty());
    lemma_data_records_built(header, rs, Seq::empty());
    assert(data_records(bytes, header.len() as int) == Ok::<Seq<RecordView>, FormatError>(rs));
    lemma_listings_agree(bytes);
}

/// Bytes that do not begin with the four-byte tag are refused by every
/// operation that reads an archive, with the error that says so.
pub proof fn lemma_bad_magic_is_refused(bytes: Seq<u8>)
    requires
        !has_magic(bytes),
    ensures
        header_of(bytes) == Err::<(MetadataView, int), XpakError>(
            XpakError::Format(FormatError::BadMagic),
        ),
        forall|selection: Option<Seq<Seq<char>>>|
            #[trigger] unpacked(bytes, selection) == Err::<Seq<RecordView>, XpakError>(
                XpakError::Format(FormatError::BadMagic),
            ),
        forall|exhaustive: bool|
            #[trigger] listed(bytes, exhaustive) == Err::<ListingView, XpakError>(
                XpakError::Format(FormatError::BadMagic),
            ),
        forall|
            description: Option<Seq<char>>,
            user_meta: Option<Seq<char>>,
            all: bool,
            created_at: Seq<char>,
        |
            #[trigger] updated(bytes, description, user_meta, all, created_at) == Err::<
                Seq<u8>,
                XpakError,
            >(XpakError::Format(FormatError::BadMagic)),
        forall|show_files: bool|
            #[trigger] metadata_lines(bytes, show_files) == Err::<Seq<Seq<char>>, XpakError>(
                XpakError::Format(FormatError::BadMagic),
            ),
{
}

/// The look at the sections of an archive does not refuse a wrong tag: it
/// is there to say what is wrong, and says that the tag is.
pub proof fn lemma_inspection_reports_bad_magic(bytes: Seq<u8>)
    requires
        !has_magic(bytes),
        inspected(bytes) is Ok,
    ensures
        !inspected(bytes)->Ok_0.magic_valid,
{
}

} // verus!
