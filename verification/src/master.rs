//! The item master: a CSV file that maps item ids to display names.
use vstd::prelude::*;

verus! {

/// The records that the `csv` crate reads from `bytes` with its default
/// reader (comma-delimited, the first record taken as the header row and not
/// listed): one entry per later record, its fields as text, or `None` where
/// the reader reported an error for that record.
pub uninterp spec fn csv_records_of(bytes: Seq<u8>) -> Seq<Option<Seq<Seq<char>>>>;

/// Reads the records of a CSV document with `csv::Reader::from_reader` and
/// `Reader::records`; the contract claims only that the result is
/// `csv_records_of(bytes)`.
#[verifier::external_body]
fn read_csv_records(bytes: &[u8]) -> (records: Vec<Option<Vec<String>>>)
    ensures
        records.deep_view() == csv_records_of(bytes@),
{
    let mut reader = csv::Reader::from_reader(bytes);
    let mut records = Vec::new();
    for result in reader.records() {
        records.push(match result {
            Ok(record) => Some(record.iter().map(|field| field.to_string()).collect()),
            Err(_) => None,
        });
    }
    records
}

/// One line of the item master.
pub struct MasterEntry {
    pub id: String,
    pub name: String,
}

/// The item master: entries in file order.
pub struct ItemMaster {
    pub entries: Vec<MasterEntry>,
}

impl View for ItemMaster {
    type V = Seq<(Seq<char>, Seq<char>)>;

    open spec fn view(&self) -> Seq<(Seq<char>, Seq<char>)> {
        Seq::new(self.entries@.len(), |i: int| (self.entries@[i].id@, self.entries@[i].name@))
    }
}

/// The master entries that a sequence of CSV records gives: every record that
/// was read and has at least two fields maps its first field to its second.
pub open spec fn master_entries(records: Seq<Option<Seq<Seq<char>>>>) -> Seq<(Seq<char>, Seq<char>)>
    decreases records.len(),
{
    if records.len() == 0 {
        seq![]
    } else {
        let rest = master_entries(records.drop_last());
        match records.last() {
            Some(fields) => if fields.len() >= 2 {
                rest.push((fields[0], fields[1]))
            } else {
                rest
            },
            None => rest,
        }
    }
}

/// The display name of `id`: the name of its last master entry, or `id`
/// itself where no entry names it.
pub open spec fn display_name(entries: Seq<(Seq<char>, Seq<char>)>, id: Seq<char>) -> Seq<char>
    decreases entries.len(),
{
    if entries.len() == 0 {
        id
    } else if entries.last().0 == id {
        entries.last().1
    } else {
        display_name(entries.drop_last(), id)
    }
}

/// A record read last decides the name of its item.
pub proof fn lemma_last_record_wins(records: Seq<Option<Seq<Seq<char>>>>, fields: Seq<Seq<char>>)
    requires
        fields.len() >= 2,
    ensures
        display_name(master_entries(records.push(Some(fields))), fields[0]) == fields[1],
{
    assert(records.push(Some(fields)).drop_last() =~= records);
}

/// An item that no entry names is shown under its id.
pub proof fn lemma_unnamed_item_keeps_id(entries: Seq<(Seq<char>, Seq<char>)>, id: Seq<char>)
    requires
        forall|i: int| 0 <= i < entries.len() ==> (#[trigger] entries[i]).0 != id,
    ensures
        display_name(entries, id) == id,
    decreases entries.len(),
{
    if entries.len() > 0 {
        let init = entries.drop_last();
        assert forall|i: int| 0 <= i < init.len() implies (#[trigger] init[i]).0 != id by {
            assert(init[i] == entries[i]);
        }
        lemma_unnamed_item_keeps_id(init, id);
    }
}

impl ItemMaster {
    /// A master with no entries: every item is shown under its id.
    pub fn empty() -> (m: ItemMaster)
        ensures
            m@ == Seq::<(Seq<char>, Seq<char>)>::empty(),
    {
        let m = ItemMaster { entries: Vec::new() };
        assert(m@ =~= Seq::<(Seq<char>, Seq<char>)>::empty());
        m
    }

    /// Builds the master from CSV records.
    pub fn from_records(records: &Vec<Option<Vec<String>>>) -> (m: ItemMaster)
        ensures
            m@ == master_entries(records.deep_view()),
    {
        let mut entries: Vec<MasterEntry> = Vec::new();
        let mut i: usize = 0;
        while i < records.len()
            invariant
                i <= records@.len(),
                (ItemMaster { entries })@ =~= master_entries(records.deep_view().take(i as int)),
            decreases records@.len() - i,
        {
            let ghost before = records.deep_view().take(i as int);
            assert(records.deep_view().take(i + 1).drop_last() =~= before);
            match &records[i] {
                Some(fields) => {
                    assert(records.deep_view()[i as int] == Some(fields.deep_view()));
                    if fields.len() >= 2 {
                        entries.push(MasterEntry { id: fields[0].clone(), name: fields[1].clone() });
                    }
                },
                None => {},
            }
            i = i + 1;
        }
        assert(records.deep_view().take(records@.len() as int) =~= records.deep_view());
        ItemMaster { entries }
    }

    /// The display name of an item.
    pub fn name_of(&self, id: &String) -> (name: String)
        ensures
            name@ == display_name(self@, id@),
    {
        let mut i: usize = self.entries.len();
        assert(self@.take(i as int) =~= self@);
        while i > 0
            invariant
                i <= self.entries@.len(),
                display_name(self@, id@) == display_name(self@.take(i as int), id@),
            decreases i,
        {
            let ghost prefix = self@.take(i as int);
            assert(prefix.drop_last() =~= self@.take(i - 1));
            if self.entries[i - 1].id == *id {
                return self.entries[i - 1].name.clone();
            }
            i = i - 1;
        }
        id.clone()
    }
}

/// Reads the item master from the bytes of its CSV file.
pub fn load_master(bytes: &[u8]) -> (m: ItemMaster)
    ensures
        m@ == master_entries(csv_records_of(bytes@)),
{
    let records = read_csv_records(bytes);
    ItemMaster::from_records(&records)
}

/// Whether a master file is to be read: a path was given and it is not empty.
pub fn uses_master(master_path: &Option<String>) -> (b: bool)
    ensures
        b == (master_path is Some && master_path->0@.len() > 0),
{
    match master_path {
        Some(p) => !p.as_str().is_empty(),
        None => false,
    }
}

} // verus!
