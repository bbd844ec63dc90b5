use std::time::Duration;

use dynamixel2::bus::{find_header, Bus};
use dynamixel2::checksum::calculate_checksum;
use dynamixel2::error::{check_packet_id, ReadError, TransferError, WriteError};

/// The ping status frame of device 1, model 0x0406, firmware 0x26.
const PING_STATUS: [u8; 14] = [0xFF, 0xFF, 0xFD, 0x00, 0x01, 0x07, 0x00, 0x55, 0x00, 0x06, 0x04, 0x26, 0x65, 0x5D];

fn bus() -> Bus {
	Bus::new(Duration::from_millis(50))
}

/// A status frame for `packet_id` with the given error code and parameters.
fn status_frame(packet_id: u8, error: u8, parameters: &[u8]) -> Vec<u8> {
	let mut body = vec![error];
	body.extend_from_slice(parameters);
	let mut encoder = Bus::with_buffer_sizes(Duration::from_millis(50), 16, 256);
	encoder.write_instruction(packet_id, 0x55, &body).unwrap().to_vec()
}

#[test]
fn test_find_garbage_end() {
	assert!(find_header(&[0xFF]) == 0);
	assert!(find_header(&[0xFF, 0xFF]) == 0);
	assert!(find_header(&[0xFF, 0xFF, 0xFD]) == 0);
	assert!(find_header(&[0xFF, 0xFF, 0xFD, 0x00]) == 0);
	assert!(find_header(&[0xFF, 0xFF, 0xFD, 0x00, 9]) == 0);

	assert!(find_header(&[0, 1, 2, 3, 4, 0xFF]) == 5);
	assert!(find_header(&[0, 1, 2, 3, 4, 0xFF, 0xFF]) == 5);
	assert!(find_header(&[0, 1, 2, 3, 4, 0xFF, 0xFF, 0xFD]) == 5);
	assert!(find_header(&[0, 1, 2, 3, 4, 0xFF, 0xFF, 0xFD, 0x00]) == 5);
	assert!(find_header(&[0, 1, 2, 3, 4, 0xFF, 0xFF, 0xFD, 0x00, 9]) == 5);

	assert!(find_header(&[0xFF, 1]) == 2);
	assert!(find_header(&[0, 1, 2, 3, 4, 0xFF, 6]) == 7);
}

#[test]
fn find_header_on_empty_buffer() {
	assert_eq!(find_header(&[]), 0);
}

#[test]
fn checksum_of_ping_instruction() {
	let frame = [0xFF, 0xFF, 0xFD, 0x00, 0x01, 0x03, 0x00, 0x01];
	assert_eq!(calculate_checksum(0, &frame), 0x4E19);
}

#[test]
fn checksum_of_ping_status() {
	assert_eq!(calculate_checksum(0, &PING_STATUS[..12]), 0x5D65);
}

#[test]
fn checksum_is_seeded() {
	let data = [0xFF, 0xFF, 0xFD, 0x00, 0x01, 0x03, 0x00, 0x01];
	let first = calculate_checksum(0, &data[..4]);
	assert_eq!(calculate_checksum(first, &data[4..]), 0x4E19);
	assert_eq!(calculate_checksum(0x1234, &[]), 0x1234);
}

#[test]
fn encode_ping_instruction() {
	let mut bus = bus();
	let frame = bus.write_instruction(0x01, 0x01, &[]).unwrap();
	assert_eq!(frame, &[0xFF, 0xFF, 0xFD, 0x00, 0x01, 0x03, 0x00, 0x01, 0x19, 0x4E]);
}

#[test]
fn encode_instruction_without_parameters() {
	let mut bus = bus();
	let frame = bus.write_instruction(0x01, 0x03, &[]).unwrap().to_vec();
	let checksum = calculate_checksum(0, &[0xFF, 0xFF, 0xFD, 0x00, 0x01, 0x03, 0x00, 0x03]);
	assert_eq!(
		frame,
		vec![0xFF, 0xFF, 0xFD, 0x00, 0x01, 0x03, 0x00, 0x03, (checksum & 0xFF) as u8, (checksum >> 8) as u8]
	);
	assert_eq!(frame[4], 0x01);
	assert_eq!(frame[7], 0x03);
	assert_eq!(frame[5] as usize + frame[6] as usize * 256, frame.len() - 7);
}

#[test]
fn encode_read_instruction() {
	let mut bus = bus();
	let frame = bus.write_instruction(0x01, 0x02, &[0x84, 0x00, 0x04, 0x00]).unwrap();
	assert_eq!(frame, &[0xFF, 0xFF, 0xFD, 0x00, 0x01, 0x07, 0x00, 0x02, 0x84, 0x00, 0x04, 0x00, 0x1D, 0x15]);
}

#[test]
fn encode_stuffs_parameters() {
	let mut bus = bus();
	let frame = bus.write_instruction(0x02, 0x03, &[0xFF, 0xFF, 0xFD, 0x07]).unwrap().to_vec();
	assert_eq!(&frame[..8], &[0xFF, 0xFF, 0xFD, 0x00, 0x02, 0x08, 0x00, 0x03]);
	assert_eq!(&frame[8..13], &[0xFF, 0xFF, 0xFD, 0xFD, 0x07]);
	let checksum = calculate_checksum(0, &frame[..13]);
	assert_eq!(&frame[13..], &[(checksum & 0xFF) as u8, (checksum >> 8) as u8]);
}

#[test]
fn encode_round_trip_through_status_read() {
	let parameters = [0xFF, 0xFF, 0xFD, 0x10, 0xFF, 0xFF, 0xFD, 0xFD, 0x00];
	let frame = status_frame(0x05, 0x00, &parameters);
	let mut bus = bus();
	assert_eq!(bus.receive(&frame), Ok(true));
	let response = bus.read_status_response().unwrap();
	assert_eq!(response.packet_id(), 0x05);
	assert_eq!(response.instruction_id(), 0x55);
	assert_eq!(response.error(), 0x00);
	assert_eq!(response.parameters(), &parameters);
	assert_eq!(response.as_bytes().len(), 9 + parameters.len());
}

#[test]
fn encode_rejects_small_write_buffer() {
	let mut bus = Bus::with_buffer_sizes(Duration::from_millis(50), 16, 12);
	assert_eq!(bus.write_instruction(0x01, 0x03, &[1, 2]).unwrap().len(), 12);
	assert_eq!(bus.write_instruction(0x01, 0x03, &[1, 2, 3]), Err(WriteError::BufferTooSmall { capacity: 12 }));
	// Stuffing makes three raw bytes four.
	let mut bus = Bus::with_buffer_sizes(Duration::from_millis(50), 16, 13);
	assert_eq!(bus.write_instruction(0x01, 0x03, &[0xFF, 0xFF, 0xFD]), Err(WriteError::BufferTooSmall { capacity: 13 }));
}

#[test]
fn encode_rejects_body_longer_than_length_field() {
	let mut bus = Bus::with_buffer_sizes(Duration::from_millis(50), 16, 70000);
	let parameters = vec![0u8; 65533];
	assert_eq!(bus.write_instruction(0x01, 0x03, &parameters), Err(WriteError::MessageTooLarge { body_len: 65533 }));
	assert_eq!(bus.write_instruction(0x01, 0x03, &parameters[..65532]).unwrap().len(), 65532 + 10);
}

#[test]
fn write_drops_pending_bytes() {
	let mut bus = bus();
	assert_eq!(bus.receive(&PING_STATUS[..5]), Ok(false));
	assert_eq!(bus.read_space(), 128 - 5);
	bus.write_instruction(0x01, 0x01, &[]).unwrap();
	assert_eq!(bus.read_space(), 128);
}

#[test]
fn read_ping_status() {
	let mut bus = bus();
	assert_eq!(bus.receive(&PING_STATUS), Ok(true));
	let response = bus.read_status_response().unwrap();
	assert_eq!(response.packet_id(), 0x01);
	assert_eq!(response.instruction_id(), 0x55);
	assert_eq!(response.error(), 0x00);
	assert_eq!(response.parameters(), &[0x06, 0x04, 0x26]);
	assert_eq!(response.as_bytes(), &PING_STATUS[..12]);
}

#[test]
fn response_release_empties_buffer() {
	let mut bus = bus();
	assert_eq!(bus.receive(&PING_STATUS), Ok(true));
	{
		let response = bus.read_status_response().unwrap();
		assert_eq!(response.packet_id(), 0x01);
	}
	assert_eq!(bus.read_space(), 128);
}

#[test]
fn read_skips_garbage() {
	for garbage in [&[][..], &[0x00][..], &[0xFF][..], &[0xFF, 0xFF, 0xFD][..], &[1, 2, 3, 0xFF, 0xFF, 7, 0xFD, 0x00][..]] {
		let mut bus = bus();
		let mut data = garbage.to_vec();
		data.extend_from_slice(&PING_STATUS);
		assert_eq!(bus.receive(&data), Ok(true));
		assert_eq!(bus.read_space(), 128 - PING_STATUS.len());
		let response = bus.read_status_response().unwrap();
		assert_eq!(response.as_bytes(), &PING_STATUS[..12]);
	}
}

#[test]
fn read_drops_all_garbage_and_keeps_partial_prefix() {
	let mut bus = bus();
	assert_eq!(bus.receive(&[1, 2, 3, 0xFF, 0xFF]), Ok(false));
	assert_eq!(bus.read_space(), 128 - 2);
	assert_eq!(bus.receive(&[9, 9]), Ok(false));
	assert_eq!(bus.read_space(), 128);
}

#[test]
fn read_rejects_bad_checksum_and_drops_frame() {
	let mut bus = bus();
	let mut data = PING_STATUS.to_vec();
	data[12] ^= 0xFF;
	data[13] ^= 0xFF;
	let next = status_frame(0x02, 0x00, &[0xAB]);
	data.extend_from_slice(&next);
	assert_eq!(bus.receive(&data), Ok(true));
	match bus.read_status_response() {
		Err(error) => assert_eq!(error, ReadError::InvalidChecksum { message: 0xA29A, computed: 0x5D65 }),
		Ok(_) => panic!("corrupt frame accepted"),
	}
	assert_eq!(bus.read_space(), 128 - next.len());
	assert_eq!(bus.receive(&[]), Ok(true));
	let response = bus.read_status_response().unwrap();
	assert_eq!(response.packet_id(), 0x02);
	assert_eq!(response.parameters(), &[0xAB]);
}

#[test]
fn read_frame_split_over_two_reads() {
	for split in 0..PING_STATUS.len() {
		let mut bus = bus();
		let first = bus.receive(&PING_STATUS[..split]);
		assert_eq!(first, Ok(false));
		assert_eq!(bus.receive(&PING_STATUS[split..]), Ok(true));
		let response = bus.read_status_response().unwrap();
		assert_eq!(response.as_bytes(), &PING_STATUS[..12]);
		assert_eq!(response.parameters(), &[0x06, 0x04, 0x26]);
	}
}

#[test]
fn read_without_new_bytes_stays_pending() {
	let mut bus = bus();
	assert_eq!(bus.receive(&[]), Ok(false));
	assert_eq!(bus.receive(&PING_STATUS[..10]), Ok(false));
	assert_eq!(bus.receive(&[]), Ok(false));
	assert_eq!(bus.read_space(), 128 - 10);
	assert_eq!(bus.read_timeout(), Duration::from_millis(50));
}

#[test]
fn read_two_frames_back_to_back() {
	let second = status_frame(0x03, 0x00, &[0x10, 0x20]);
	let mut data = PING_STATUS.to_vec();
	data.extend_from_slice(&second);
	let mut bus = bus();
	assert_eq!(bus.receive(&data), Ok(true));
	{
		let response = bus.read_status_response().unwrap();
		assert_eq!(response.packet_id(), 0x01);
		assert_eq!(response.parameters(), &[0x06, 0x04, 0x26]);
	}
	assert_eq!(bus.read_space(), 128 - second.len());
	assert_eq!(bus.receive(&[]), Ok(true));
	let response = bus.read_status_response().unwrap();
	assert_eq!(response.packet_id(), 0x03);
	assert_eq!(response.parameters(), &[0x10, 0x20]);
}

#[test]
fn read_rejects_wrong_instruction() {
	let mut encoder = bus();
	let frame = encoder.write_instruction(0x01, 0x03, &[0x00, 0x01]).unwrap().to_vec();
	let mut bus = bus();
	assert_eq!(bus.receive(&frame), Ok(true));
	match bus.read_status_response() {
		Err(error) => assert_eq!(error, ReadError::InvalidInstruction { actual: 0x03, expected: 0x55 }),
		Ok(_) => panic!("instruction frame accepted as status"),
	}
	assert_eq!(bus.read_space(), 128);
}

#[test]
fn read_reports_motor_error() {
	let frame = status_frame(0x01, 0x02, &[]);
	let mut bus = bus();
	assert_eq!(bus.receive(&frame), Ok(true));
	match bus.read_status_response() {
		Err(error) => assert_eq!(error, ReadError::MotorError { code: 0x02 }),
		Ok(_) => panic!("device error not reported"),
	}
	assert_eq!(bus.read_space(), 128);
}

#[test]
fn read_rejects_short_length_field() {
	let mut bus = bus();
	let data = [0xFF, 0xFF, 0xFD, 0x00, 0x01, 0x03, 0x00, 0x55, 0x00];
	assert_eq!(bus.receive(&data), Err(ReadError::InvalidLength { length: 3 }));
	assert_eq!(bus.read_space(), 128 - 5);
}

#[test]
fn read_rejects_frame_larger_than_buffer() {
	let mut bus = Bus::with_buffer_sizes(Duration::from_millis(50), 32, 128);
	let data = [0xFF, 0xFF, 0xFD, 0x00, 0x01, 0x20, 0x00, 0x55, 0x00];
	assert_eq!(bus.receive(&data), Err(ReadError::BufferTooSmall { required: 39, capacity: 32 }));
	assert_eq!(bus.read_space(), 32 - 5);
	let mut bus = Bus::with_buffer_sizes(Duration::from_millis(50), 39, 128);
	assert_eq!(bus.receive(&data), Ok(false));
}

#[test]
fn packet_id_check() {
	assert_eq!(check_packet_id(3, 3), Ok(()));
	assert_eq!(check_packet_id(4, 3), Err(TransferError::InvalidPacketId { actual: 4, expected: 3 }));
}

#[test]
fn with_buffers_uses_given_buffers() {
	let mut bus = Bus::with_buffers(Duration::from_secs(1), vec![7; 20], vec![7; 10]);
	assert_eq!(bus.read_space(), 20);
	assert_eq!(bus.read_timeout(), Duration::from_secs(1));
	assert_eq!(bus.write_instruction(0x01, 0x01, &[]).unwrap(), &[0xFF, 0xFF, 0xFD, 0x00, 0x01, 0x03, 0x00, 0x01, 0x19, 0x4E]);
}
