use iot_edge::message::{CanFrame, CanMessage, Chunk, GpsMessage, Message};

struct Reader<'a> {
    b: &'a [u8],
    pos: usize,
}

impl<'a> Reader<'a> {
    fn u64(&mut self) -> u64 {
        let mut a = [0u8; 8];
        a.copy_from_slice(&self.b[self.pos..self.pos + 8]);
        self.pos += 8;
        u64::from_le_bytes(a)
    }
    fn u32(&mut self) -> u32 {
        let mut a = [0u8; 4];
        a.copy_from_slice(&self.b[self.pos..self.pos + 4]);
        self.pos += 4;
        u32::from_le_bytes(a)
    }
    fn byte(&mut self) -> u8 {
        self.pos += 1;
        self.b[self.pos - 1]
    }
    fn field(&mut self) -> Vec<u8> {
        let n = self.u64() as usize;
        self.pos += n;
        self.b[self.pos - n..self.pos].to_vec()
    }
}

fn decode(b: &[u8]) -> (String, i64, Vec<CanMessage>, Vec<GpsMessage>) {
    let mut r = Reader { b, pos: 0 };
    let id = String::from_utf8(r.field()).unwrap();
    let time = r.u64() as i64;
    let mut cans = Vec::new();
    for _ in 0..r.u64() {
        let time = r.u64() as i64;
        let channel = String::from_utf8(r.field()).unwrap();
        let id = r.u32();
        let error = r.byte() == 1;
        let remote = r.byte() == 1;
        let extended = r.byte() == 1;
        let data = r.field();
        cans.push(CanMessage { time, channel, frame: CanFrame { id, extended, error, remote, data } });
    }
    let mut gpss = Vec::new();
    for _ in 0..r.u64() {
        gpss.push(GpsMessage { time: r.u64() as i64, longitude: r.u64(), latitude: r.u64(), speed: r.u64() });
    }
    assert_eq!(r.pos, b.len());
    (id, time, cans, gpss)
}

fn can_msg(time: i64, id: u32, extended: bool, data: Vec<u8>) -> CanMessage {
    CanMessage { time, channel: "can1".to_string(), frame: CanFrame::new(id, extended, data).unwrap() }
}

#[test]
fn binary_round_trip_segregates_by_kind() {
    let c1 = can_msg(1_655_098_589_035_226, 0x202, false, vec![0xA1, 0, 0, 0, 0, 0, 0, 0xA1]);
    let g = GpsMessage {
        time: 1_655_098_589_100_000,
        longitude: (-0.1f64).to_bits(),
        latitude: 0.1f64.to_bits(),
        speed: 100.0f64.to_bits(),
    };
    let mut c2 = can_msg(-5, 0x1ABC_DEF0, true, vec![0x7F]);
    c2.frame.remote = true;
    let mut chunk = Chunk::new_at("test", 1_655_098_590_000_000);
    chunk.push(Message::CAN(c1.clone()));
    chunk.push(Message::GPS(g.clone()));
    chunk.push(Message::CAN(c2.clone()));
    let (id, time, cans, gpss) = decode(&chunk.to_vec());
    assert_eq!(id, "test");
    assert_eq!(time, 1_655_098_590_000_000);
    assert_eq!(cans, vec![c1, c2]);
    assert_eq!(gpss, vec![g.clone()]);
    assert_eq!(f64::from_bits(gpss[0].longitude), -0.1);
    assert_eq!(f64::from_bits(gpss[0].speed), 100.0);
}

#[test]
fn binary_form_of_empty_chunk() {
    let chunk = Chunk::new_at("ab", 258);
    let mut expected = vec![2, 0, 0, 0, 0, 0, 0, 0, b'a', b'b'];
    expected.extend_from_slice(&[2, 1, 0, 0, 0, 0, 0, 0]);
    expected.extend_from_slice(&[0; 8]);
    expected.extend_from_slice(&[0; 8]);
    assert_eq!(chunk.to_vec(), expected);
}

#[test]
fn binary_form_of_one_can_entry() {
    let mut chunk = Chunk::new_at("", 0);
    chunk.push(Message::CAN(CanMessage {
        time: 1,
        channel: "c".to_string(),
        frame: CanFrame { id: 0x0102_0304, extended: true, error: true, remote: false, data: vec![9] },
    }));
    let mut expected = vec![0u8; 16];
    expected.extend_from_slice(&[1, 0, 0, 0, 0, 0, 0, 0]);
    expected.extend_from_slice(&[1, 0, 0, 0, 0, 0, 0, 0]);
    expected.extend_from_slice(&[1, 0, 0, 0, 0, 0, 0, 0, b'c']);
    expected.extend_from_slice(&[4, 3, 2, 1, 1, 0, 1]);
    expected.extend_from_slice(&[1, 0, 0, 0, 0, 0, 0, 0, 9]);
    expected.extend_from_slice(&[0; 8]);
    assert_eq!(chunk.to_vec(), expected);
}
