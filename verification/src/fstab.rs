//! The table of file systems: one entry on each line, six fields to an entry, the
//! fields set apart by blanks; a line that begins with `#` is a comment.
use vstd::prelude::*;
use vstd::string::*;

verus! {

/// One entry of the table.
pub struct FSTabItem {
    pub device_spec: String,
    pub mount_point: String,
    pub fs_type: String,
    pub options: String,
    pub dump: i8,
    pub pass: i8,
    pub state: i8,
}

/// What an entry says.
pub struct FSTabEntry {
    pub device_spec: Seq<char>,
    pub mount_point: Seq<char>,
    pub fs_type: Seq<char>,
    pub options: Seq<char>,
    pub dump: i8,
    pub pass: i8,
    pub state: i8,
}

impl View for FSTabItem {
    type V = FSTabEntry;

    open spec fn view(&self) -> FSTabEntry {
        FSTabEntry {
            device_spec: self.device_spec@,
            mount_point: self.mount_point@,
            fs_type: self.fs_type@,
            options: self.options@,
            dump: self.dump,
            pass: self.pass,
            state: self.state,
        }
    }
}

/// Whether `c` is a blank: one of the characters that Unicode calls white space.
pub open spec fn is_space(c: char) -> bool {
    let n = c as u32;
    (0x09 <= n <= 0x0d) || n == 0x20 || n == 0x85 || n == 0xa0 || n == 0x1680 || (0x2000 <= n
        <= 0x200a) || n == 0x2028 || n == 0x2029 || n == 0x202f || n == 0x205f || n == 0x3000
}

fn char_is_space(c: char) -> (yes: bool)
    ensures
        yes == is_space(c),
{
    let n = c as u32;
    (0x09 <= n && n <= 0x0d) || n == 0x20 || n == 0x85 || n == 0xa0 || n == 0x1680 || (0x2000 <= n
        && n <= 0x200a) || n == 0x2028 || n == 0x2029 || n == 0x202f || n == 0x205f || n == 0x3000
}

/// Whether `c` is one of the ten digits.
pub open spec fn is_digit(c: char) -> bool {
    0x30 <= c as u32 <= 0x39
}

/// The number that the digits `s` write in base ten.
pub open spec fn digits_value(s: Seq<char>) -> int
    decreases s.len(),
{
    if s.len() == 0 {
        0
    } else {
        digits_value(s.drop_last()) * 10 + (s.last() as u32 - 0x30)
    }
}

/// Whether `s` is made of digits, and of one at least.
pub open spec fn all_digits(s: Seq<char>) -> bool {
    s.len() > 0 && forall|i: int| 0 <= i < s.len() ==> is_digit(#[trigger] s[i])
}

/// The small number that `s` writes: a sign or none, then digits, and no more than
/// eight bits can hold. Nothing else is a number.
pub open spec fn parse_i8_spec(s: Seq<char>) -> Option<i8> {
    let signed = s.len() > 0 && (s[0] == '-' || s[0] == '+');
    let digits = if signed {
        s.skip(1)
    } else {
        s
    };
    let value = if s.len() > 0 && s[0] == '-' {
        -digits_value(digits)
    } else {
        digits_value(digits)
    };
    if all_digits(digits) && -128 <= value <= 127 {
        Some(value as i8)
    } else {
        None
    }
}

proof fn lemma_digits_grow(s: Seq<char>, i: int)
    requires
        0 <= i < s.len(),
        forall|k: int| 0 <= k <= i ==> is_digit(#[trigger] s[k]),
    ensures
        digits_value(s.take(i + 1)) == digits_value(s.take(i)) * 10 + (s[i] as u32 - 0x30),
        digits_value(s.take(i + 1)) >= digits_value(s.take(i)) >= 0,
    decreases i,
{
    assert(s.take(i + 1).drop_last() =~= s.take(i));
    if i > 0 {
        lemma_digits_grow(s, i - 1);
    } else {
        assert(s.take(0).len() == 0);
    }
}

/// The small number that `s` writes, if it writes one.
pub fn parse_i8(s: &str) -> (r: Option<i8>)
    ensures
        r == parse_i8_spec(s@),
{
    let n = s.unicode_len();
    if n == 0 {
        return None;
    }
    let first = s.get_char(0);
    let negative = first == '-';
    let start: usize = if first == '-' || first == '+' {
        1
    } else {
        0
    };
    if start == n {
        return None;
    }
    let ghost digits = s@.skip(start as int);
    let mut acc: u32 = 0;
    let mut i: usize = start;
    while i < n
        invariant
            start <= i <= n,
            n == s@.len(),
            n > 0,
            first == s@[0],
            start == if first == '-' || first == '+' {
                1usize
            } else {
                0usize
            },
            digits == s@.skip(start as int),
            forall|k: int| 0 <= k < i - start ==> is_digit(#[trigger] digits[k]),
            digits_value(digits.take(i - start)) >= 0,
            acc == if digits_value(digits.take(i - start)) > 1000 {
                1000int
            } else {
                digits_value(digits.take(i - start))
            },
        decreases n - i,
    {
        let c = s.get_char(i);
        let d = c as u32;
        if d < 0x30 || d > 0x39 {
            proof {
                assert(digits[i - start] == c);
                assert(!is_digit(digits[i - start]));
            }
            return None;
        }
        proof {
            assert(digits[i - start] == c);
            lemma_digits_grow(digits, i - start);
        }
        acc = acc * 10 + (d - 0x30);
        if acc > 1000 {
            acc = 1000;
        }
        i = i + 1;
    }
    proof {
        assert(digits.take(n - start) =~= digits);
        assert(all_digits(digits));
        if start == 0 {
            assert(s@.skip(0) =~= s@);
        }
    }
    if negative {
        if acc <= 128 {
            Some((0 - acc as i32) as i8)
        } else {
            None
        }
    } else {
        if acc <= 127 {
            Some(acc as i8)
        } else {
            None
        }
    }
}

/// Whether the device is named by the identifier of its file system.
pub open spec fn is_uuid_spec(dev: Seq<char>) -> bool {
    dev.len() >= 4 && dev[0] == 'U' && dev[1] == 'U' && dev[2] == 'I' && dev[3] == 'D'
}

/// The path of the device: a device that is named by the identifier of its file
/// system is found under that identifier in the directory of such links, and any
/// other device is named by its path already.
pub open spec fn device_path(dev: Seq<char>) -> Seq<char> {
    if is_uuid_spec(dev) {
        "/dev/disk/by-uuid/"@ + dev.skip(5)
    } else {
        dev
    }
}

/// Whether `fields` make an entry: there are six of them at least, the fifth and the
/// sixth are small numbers, and a device named by an identifier has the identifier
/// behind a mark of one plain character.
pub open spec fn fields_valid(fields: Seq<Seq<char>>) -> bool {
    &&& fields.len() >= 6
    &&& is_uuid_spec(fields[0]) ==> fields[0].len() >= 5 && (fields[0][4] as u32) < 0x80
    &&& parse_i8_spec(fields[4]).is_some()
    &&& parse_i8_spec(fields[5]).is_some()
}

/// The entry that `fields` make.
pub open spec fn entry_of(fields: Seq<Seq<char>>) -> FSTabEntry {
    FSTabEntry {
        device_spec: device_path(fields[0]),
        mount_point: fields[1],
        fs_type: fields[2],
        options: fields[3],
        dump: parse_i8_spec(fields[4]).unwrap(),
        pass: parse_i8_spec(fields[5]).unwrap(),
        state: 0,
    }
}

/// What the strings say, each as its characters.
pub open spec fn views_of(strs: Seq<&str>) -> Seq<Seq<char>> {
    strs.map_values(|s: &str| s@)
}

fn is_uuid(dev: &str) -> (yes: bool)
    ensures
        yes == is_uuid_spec(dev@),
{
    dev.unicode_len() >= 4 && dev.get_char(0) == 'U' && dev.get_char(1) == 'U' && dev.get_char(2)
        == 'I' && dev.get_char(3) == 'D'
}

/// Whether `input` holds the fields of an entry.
pub fn fields_ok(input: &Vec<&str>) -> (ok: bool)
    ensures
        ok == fields_valid(views_of(input@)),
{
    if input.len() < 6 {
        return false;
    }
    let dev = input[0];
    proof {
        assert(views_of(input@)[0] == dev@);
        assert(views_of(input@)[4] == input@[4]@);
        assert(views_of(input@)[5] == input@[5]@);
    }
    if is_uuid(dev) {
        if dev.unicode_len() < 5 {
            return false;
        }
        if dev.get_char(4) as u32 >= 0x80 {
            return false;
        }
    }
    parse_i8(input[4]).is_some() && parse_i8(input[5]).is_some()
}

impl FSTabItem {
    /// The entry that the fields `input` make.
    pub fn new(input: Vec<&str>) -> (item: FSTabItem)
        requires
            fields_valid(views_of(input@)),
        ensures
            item@ == entry_of(views_of(input@)),
    {
        let dev = input[0];
        proof {
            assert(views_of(input@)[0] == dev@);
            assert(views_of(input@)[1] == input@[1]@);
            assert(views_of(input@)[2] == input@[2]@);
            assert(views_of(input@)[3] == input@[3]@);
            assert(views_of(input@)[4] == input@[4]@);
            assert(views_of(input@)[5] == input@[5]@);
        }
        let mut real_path = String::from_str(dev);
        if is_uuid(dev) {
            let uuid = dev.substring_char(5, dev.unicode_len());
            real_path = String::from_str("/dev/disk/by-uuid/");
            real_path.append(uuid);
            proof {
                assert(dev@.subrange(5, dev@.len() as int) =~= dev@.skip(5));
            }
        }
        FSTabItem {
            device_spec: real_path,
            mount_point: String::from_str(input[1]),
            fs_type: String::from_str(input[2]),
            options: String::from_str(input[3]),
            dump: parse_i8(input[4]).unwrap(),
            pass: parse_i8(input[5]).unwrap(),
            state: 0,
        }
    }
}

/// The fields of what is left of `s` from position `i` on, when the field that is
/// being read began at `start`, or when none is being read and `start` is negative.
pub open spec fn fields_acc(s: Seq<char>, i: int, start: int) -> Seq<Seq<char>>
    decreases s.len() - i,
{
    if i < 0 || i >= s.len() {
        if start >= 0 {
            seq![s.subrange(start, s.len() as int)]
        } else {
            Seq::empty()
        }
    } else if is_space(s[i]) {
        (if start >= 0 {
            seq![s.subrange(start, i)]
        } else {
            Seq::empty()
        }) + fields_acc(s, i + 1, -1)
    } else {
        fields_acc(s, i + 1, if start >= 0 {
            start
        } else {
            i
        })
    }
}

/// The fields of the line `s`: its stretches of characters between blanks.
pub open spec fn fields_of(s: Seq<char>) -> Seq<Seq<char>> {
    fields_acc(s, 0, -1)
}

/// The lines of what is left of `s` from position `i` on, when the line that is being
/// read began at `start`.
pub open spec fn lines_acc(s: Seq<char>, i: int, start: int) -> Seq<Seq<char>>
    decreases s.len() - i,
{
    if i < 0 || i >= s.len() {
        if start < s.len() {
            seq![s.subrange(start, s.len() as int)]
        } else {
            Seq::empty()
        }
    } else if s[i] == '\n' {
        seq![s.subrange(start, i)] + lines_acc(s, i + 1, i + 1)
    } else {
        lines_acc(s, i + 1, start)
    }
}

/// The lines of the text `s`: what stands before each line feed, and what stands
/// behind the last one if anything does.
pub open spec fn lines_of(s: Seq<char>) -> Seq<Seq<char>> {
    lines_acc(s, 0, 0)
}

/// Whether a line with the fields `fields` is an entry: it is neither blank nor a
/// comment.
pub open spec fn is_entry(fields: Seq<Seq<char>>) -> bool {
    fields.len() > 0 && !(fields[0].len() > 0 && fields[0][0] == '#')
}

/// The entries on `lines`, in their order.
pub open spec fn entries_of(lines: Seq<Seq<char>>) -> Seq<FSTabEntry>
    decreases lines.len(),
{
    if lines.len() == 0 {
        Seq::empty()
    } else {
        let fields = fields_of(lines.last());
        if is_entry(fields) {
            entries_of(lines.drop_last()).push(entry_of(fields))
        } else {
            entries_of(lines.drop_last())
        }
    }
}

/// Whether every line of the text `s` that is an entry is a well-made one.
pub open spec fn fstab_valid(s: Seq<char>) -> bool {
    forall|k: int|
        0 <= k < lines_of(s).len() && is_entry(fields_of(#[trigger] lines_of(s)[k]))
            ==> fields_valid(fields_of(lines_of(s)[k]))
}

/// What the items say, each as its entry.
pub open spec fn entries_view(items: Seq<FSTabItem>) -> Seq<FSTabEntry> {
    items.map_values(|item: FSTabItem| item@)
}

/// The fields of `line`.
pub fn split_fields<'a>(line: &'a str) -> (fields: Vec<&'a str>)
    ensures
        views_of(fields@) == fields_of(line@),
{
    let n = line.unicode_len();
    let mut fields: Vec<&'a str> = Vec::new();
    let mut start: usize = 0;
    let mut inside = false;
    let mut i: usize = 0;
    proof {
        assert(views_of(fields@) =~= Seq::<Seq<char>>::empty());
    }
    while i < n
        invariant
            i <= n,
            n == line@.len(),
            inside ==> start < i,
            views_of(fields@) + fields_acc(
                line@,
                i as int,
                if inside {
                    start as int
                } else {
                    -1
                },
            ) == fields_of(line@),
        decreases n - i,
    {
        let c = line.get_char(i);
        let ghost before = views_of(fields@);
        if char_is_space(c) {
            if inside {
                let word = line.substring_char(start, i);
                fields.push(word);
                inside = false;
                proof {
                    assert(views_of(fields@) =~= before.push(word@));
                    assert(before + (seq![word@] + fields_acc(line@, i + 1, -1)) =~= before.push(
                        word@,
                    ) + fields_acc(line@, i + 1, -1));
                }
            }
        } else {
            if !inside {
                start = i;
                inside = true;
            }
        }
        i = i + 1;
    }
    if inside {
        let ghost before = views_of(fields@);
        let word = line.substring_char(start, n);
        fields.push(word);
        proof {
            assert(views_of(fields@) =~= before.push(word@));
            assert(before + seq![word@] =~= before.push(word@));
        }
    } else {
        proof {
            assert(views_of(fields@) + Seq::<Seq<char>>::empty() =~= views_of(fields@));
        }
    }
    fields
}

fn parse_line(line: &str, res: &mut Vec<FSTabItem>)
    requires
        is_entry(fields_of(line@)) ==> fields_valid(fields_of(line@)),
    ensures
        entries_view(final(res)@) == if is_entry(fields_of(line@)) {
            entries_view(old(res)@).push(entry_of(fields_of(line@)))
        } else {
            entries_view(old(res)@)
        },
{
    let mount = split_fields(line);
    if mount.len() == 0 {
        return ;
    }
    proof {
        assert(views_of(mount@)[0] == mount@[0]@);
    }
    let head = mount[0];
    if head.unicode_len() > 0 && head.get_char(0) == '#' {
        return ;
    }
    let ghost before = res@;
    let item = FSTabItem::new(mount);
    res.push(item);
    proof {
        assert(entries_view(res@) =~= entries_view(before).push(item@));
    }
}

/// The entries of the table whose text is `content`, in their order. Blank lines and
/// comments are passed over.
pub fn parse(content: &str) -> (res: Vec<FSTabItem>)
    requires
        fstab_valid(content@),
    ensures
        entries_view(res@) == entries_of(lines_of(content@)),
{
    let n = content.unicode_len();
    let mut res: Vec<FSTabItem> = Vec::new();
    let ghost mut done: Seq<Seq<char>> = Seq::empty();
    let mut start: usize = 0;
    let mut i: usize = 0;
    proof {
        assert(entries_view(res@) =~= Seq::<FSTabEntry>::empty());
    }
    while i < n
        invariant
            i <= n,
            start <= i,
            n == content@.len(),
            fstab_valid(content@),
            done + lines_acc(content@, i as int, start as int) == lines_of(content@),
            entries_view(res@) == entries_of(done),
        decreases n - i,
    {
        let c = content.get_char(i);
        if c == '\n' {
            let line = content.substring_char(start, i);
            proof {
                let rest = lines_acc(content@, i + 1, i + 1);
                assert(done + (seq![line@] + rest) =~= done.push(line@) + rest);
                assert((done.push(line@) + rest)[done.len() as int] == line@);
                assert(lines_of(content@)[done.len() as int] == line@);
                assert(done.push(line@).drop_last() =~= done);
            }
            parse_line(line, &mut res);
            proof {
                done = done.push(line@);
            }
            start = i + 1;
        }
        i = i + 1;
    }
    if start < n {
        let line = content.substring_char(start, n);
        proof {
            assert(done + seq![line@] =~= done.push(line@));
            assert(lines_of(content@)[done.len() as int] == line@);
            assert(done.push(line@).drop_last() =~= done);
        }
        parse_line(line, &mut res);
    } else {
        proof {
            assert(done + Seq::<Seq<char>>::empty() =~= done);
        }
    }
    res
}

/// Whether every line of the text `content` that is an entry is a well-made one.
pub fn is_well_formed(content: &str) -> (ok: bool)
    ensures
        ok == fstab_valid(content@),
{
    let n = content.unicode_len();
    let ghost mut done: Seq<Seq<char>> = Seq::empty();
    let mut start: usize = 0;
    let mut i: usize = 0;
    while i < n
        invariant
            i <= n,
            start <= i,
            n == content@.len(),
            done + lines_acc(content@, i as int, start as int) == lines_of(content@),
            forall|k: int|
                0 <= k < done.len() && is_entry(fields_of(#[trigger] done[k])) ==> fields_valid(
                    fields_of(done[k]),
                ),
        decreases n - i,
    {
        let c = content.get_char(i);
        if c == '\n' {
            let line = content.substring_char(start, i);
            proof {
                let rest = lines_acc(content@, i + 1, i + 1);
                assert(done + (seq![line@] + rest) =~= done.push(line@) + rest);
                assert((done.push(line@) + rest)[done.len() as int] == line@);
                assert(lines_of(content@)[done.len() as int] == line@);
            }
            if !line_ok(line) {
                return false;
            }
            proof {
                done = done.push(line@);
            }
            start = i + 1;
        }
        i = i + 1;
    }
    if start < n {
        let line = content.substring_char(start, n);
        proof {
            assert(done + seq![line@] =~= done.push(line@));
            assert(lines_of(content@)[done.len() as int] == line@);
        }
        if !line_ok(line) {
            return false;
        }
        proof {
            done = done.push(line@);
        }
    } else {
        proof {
            assert(done + Seq::<Seq<char>>::empty() =~= done);
        }
    }
    true
}

fn line_ok(line: &str) -> (ok: bool)
    ensures
        ok == (is_entry(fields_of(line@)) ==> fields_valid(fields_of(line@))),
{
    let mount = split_fields(line);
    if mount.len() == 0 {
        return true;
    }
    proof {
        assert(views_of(mount@)[0] == mount@[0]@);
    }
    let head = mount[0];
    if head.unicode_len() > 0 && head.get_char(0) == '#' {
        return true;
    }
    fields_ok(&mount)
}

} // verus!
